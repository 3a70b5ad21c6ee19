//! Character-sequence helpers: conversions between `String` and
//! `Vec<char>`, scanning, trimming, comparison and search, each with a
//! specification-level definition that the executable code is proved
//! against.

use vstd::prelude::*;

verus! {

use vstd::std_specs::iter::IteratorSpec;

broadcast use vstd::string::group_string_axioms;

/// Index of the first non-space character at or after `i`.
pub open spec fn leading_from(s: Seq<char>, i: int) -> int
    decreases s.len() - i,
{
    if i < 0 || i >= s.len() || s[i] != ' ' {
        i
    } else {
        leading_from(s, i + 1)
    }
}

/// End of `s` once trailing spaces before `j` are dropped.
pub open spec fn trail_before(s: Seq<char>, j: int) -> int
    decreases j,
{
    if j <= 0 || j > s.len() || s[j - 1] != ' ' {
        j
    } else {
        trail_before(s, j - 1)
    }
}

/// Position of the first `": "` at or after `i`, if any.
pub open spec fn find_sep_from(s: Seq<char>, i: int) -> Option<int>
    decreases s.len() - i,
{
    if i < 0 || i + 1 >= s.len() {
        None
    } else if s[i] == ':' && s[i + 1] == ' ' {
        Some(i)
    } else {
        find_sep_from(s, i + 1)
    }
}

/// Position of the first `c` at or after `i`, if any.
pub open spec fn find_char_from(s: Seq<char>, c: char, i: int) -> Option<int>
    decreases s.len() - i,
{
    if i < 0 || i >= s.len() {
        None
    } else if s[i] == c {
        Some(i)
    } else {
        find_char_from(s, c, i + 1)
    }
}

/// Position of the last `c` in `s`, if any.
pub open spec fn find_char_last(s: Seq<char>, c: char, j: int) -> Option<int>
    decreases j,
{
    if j <= 0 || j > s.len() {
        None
    } else if s[j - 1] == c {
        Some(j - 1)
    } else {
        find_char_last(s, c, j - 1)
    }
}

/// Lexicographic order on character sequences, by code point, from `i` on.
pub open spec fn str_le_from(a: Seq<char>, b: Seq<char>, i: int) -> bool
    decreases a.len() - i,
{
    if i < 0 || i >= a.len() {
        true
    } else if i >= b.len() {
        false
    } else if a[i] != b[i] {
        (a[i] as u32) < (b[i] as u32)
    } else {
        str_le_from(a, b, i + 1)
    }
}

/// Lexicographic order on character sequences (total).
pub open spec fn str_le(a: Seq<char>, b: Seq<char>) -> bool {
    str_le_from(a, b, 0)
}

/// `p` occurs in `s` starting at `i`.
pub open spec fn match_at(s: Seq<char>, p: Seq<char>, i: int) -> bool {
    0 <= i && i + p.len() <= s.len() && s.subrange(i, i + p.len()) == p
}

/// `p` occurs somewhere in `s`.
pub open spec fn contains_sub(s: Seq<char>, p: Seq<char>) -> bool {
    exists|i: int| #[trigger] match_at(s, p, i)
}

/// Decimal digit.
pub open spec fn is_digit(c: char) -> bool {
    '0' <= c && c <= '9'
}

/// A word character: letter, digit or underscore.
pub open spec fn is_word_char(c: char) -> bool {
    ('a' <= c && c <= 'z') || ('A' <= c && c <= 'Z') || is_digit(c) || c == '_'
}

pub open spec fn all_digits(s: Seq<char>) -> bool {
    forall|i: int| 0 <= i < s.len() ==> is_digit(#[trigger] s[i])
}

pub open spec fn all_word_chars(s: Seq<char>) -> bool {
    forall|i: int| 0 <= i < s.len() ==> is_word_char(#[trigger] s[i])
}

/// The characters of a string slice, as a vector.
pub fn chars_of(s: &str) -> (r: Vec<char>)
    ensures
        r@ == s@,
{
    let mut it = s.chars();
    let mut r: Vec<char> = Vec::new();
    loop
        invariant
            it.obeys_prophetic_iter_laws(),
            IteratorSpec::decrease(&it) is Some,
            r@ + IteratorSpec::remaining(&it) == s@,
        ensures
            r@ == s@,
        decreases IteratorSpec::decrease(&it)->0,
    {
        match it.next() {
            Some(c) => {
                r.push(c);
                assert(r@ + IteratorSpec::remaining(&it) =~= s@);
            },
            None => {
                assert(r@ =~= s@);
                break;
            },
        }
    }
    r
}

/// Relies on `Iterator::collect` for `String`: the collected string holds
/// exactly the characters yielded by the vector's iterator, in order.
#[verifier::external_body]
pub fn string_of(v: &Vec<char>) -> (r: String)
    ensures
        r@ == v@,
{
    v.iter().collect()
}

/// The sub-vector `v[a..b]`.
pub fn sub_chars(v: &Vec<char>, a: usize, b: usize) -> (r: Vec<char>)
    requires
        a <= b <= v@.len(),
    ensures
        r@ == v@.subrange(a as int, b as int),
{
    let mut r: Vec<char> = Vec::new();
    let mut i = a;
    while i < b
        invariant
            a <= i <= b <= v@.len(),
            r@ == v@.subrange(a as int, i as int),
        decreases b - i,
    {
        r.push(v[i]);
        i = i + 1;
        assert(r@ =~= v@.subrange(a as int, i as int));
    }
    r
}

/// Number of leading spaces.
pub fn leading_spaces(v: &Vec<char>) -> (r: usize)
    ensures
        r == leading_from(v@, 0),
        r <= v@.len(),
{
    let mut i: usize = 0;
    while i < v.len() && v[i] == ' '
        invariant
            0 <= i <= v@.len(),
            leading_from(v@, 0) == leading_from(v@, i as int),
        decreases v@.len() - i,
    {
        i = i + 1;
    }
    i
}

/// Length of `v` once trailing spaces are dropped.
pub fn trimmed_end(v: &Vec<char>) -> (r: usize)
    ensures
        r == trail_before(v@, v@.len() as int),
        r <= v@.len(),
{
    let mut j: usize = v.len();
    while j > 0 && v[j - 1] == ' '
        invariant
            0 <= j <= v@.len(),
            trail_before(v@, v@.len() as int) == trail_before(v@, j as int),
        decreases j,
    {
        j = j - 1;
    }
    j
}

/// First `": "` at or after `i`.
pub fn find_sep(v: &Vec<char>, i: usize) -> (r: Option<usize>)
    ensures
        match r {
            Some(k) => Some(k as int) == find_sep_from(v@, i as int),
            None => find_sep_from(v@, i as int) is None,
        },
{
    let mut k = i;
    loop
        invariant
            i <= k,
            find_sep_from(v@, i as int) == find_sep_from(v@, k as int),
        decreases v@.len() - k,
    {
        if k >= v.len() {
            return None;
        }
        if k + 1 >= v.len() {
            return None;
        }
        if v[k] == ':' && v[k + 1] == ' ' {
            return Some(k);
        }
        k = k + 1;
    }
}

/// First `c` at or after `i`.
pub fn find_char(v: &Vec<char>, c: char, i: usize) -> (r: Option<usize>)
    ensures
        match r {
            Some(k) => Some(k as int) == find_char_from(v@, c, i as int),
            None => find_char_from(v@, c, i as int) is None,
        },
{
    let mut k = i;
    loop
        invariant
            i <= k,
            find_char_from(v@, c, i as int) == find_char_from(v@, c, k as int),
        decreases v@.len() - k,
    {
        if k >= v.len() {
            return None;
        }
        if v[k] == c {
            return Some(k);
        }
        k = k + 1;
    }
}

/// Last `c` in `v`.
pub fn find_last_char(v: &Vec<char>, c: char) -> (r: Option<usize>)
    ensures
        match r {
            Some(k) => Some(k as int) == find_char_last(v@, c, v@.len() as int),
            None => find_char_last(v@, c, v@.len() as int) is None,
        },
{
    let mut j = v.len();
    loop
        invariant
            j <= v@.len(),
            find_char_last(v@, c, v@.len() as int) == find_char_last(v@, c, j as int),
        decreases j,
    {
        if j == 0 {
            return None;
        }
        if v[j - 1] == c {
            return Some(j - 1);
        }
        j = j - 1;
    }
}

/// Lexicographic order, executable form.
pub fn str_le_exec(a: &Vec<char>, b: &Vec<char>) -> (r: bool)
    ensures
        r == str_le(a@, b@),
{
    let mut i: usize = 0;
    loop
        invariant
            0 <= i,
            str_le(a@, b@) == str_le_from(a@, b@, i as int),
        decreases a@.len() - i,
    {
        if i >= a.len() {
            return true;
        }
        if i >= b.len() {
            return false;
        }
        if a[i] != b[i] {
            return (a[i] as u32) < (b[i] as u32);
        }
        i = i + 1;
    }
}

/// Whether `v` holds `c` anywhere.
pub fn contains_char(v: &Vec<char>, c: char) -> (r: bool)
    ensures
        r == find_char_from(v@, c, 0) is Some,
{
    match find_char(v, c, 0) {
        Some(_) => true,
        None => false,
    }
}

/// Whether every character is a decimal digit.
pub fn all_digits_exec(v: &Vec<char>) -> (r: bool)
    ensures
        r == all_digits(v@),
{
    let mut i: usize = 0;
    while i < v.len()
        invariant
            0 <= i <= v@.len(),
            forall|j: int| 0 <= j < i ==> is_digit(#[trigger] v@[j]),
        decreases v@.len() - i,
    {
        if !('0' <= v[i] && v[i] <= '9') {
            return false;
        }
        i = i + 1;
    }
    true
}

/// Whether every character is a word character.
pub fn all_word_chars_exec(v: &Vec<char>) -> (r: bool)
    ensures
        r == all_word_chars(v@),
{
    let mut i: usize = 0;
    while i < v.len()
        invariant
            0 <= i <= v@.len(),
            forall|j: int| 0 <= j < i ==> is_word_char(#[trigger] v@[j]),
        decreases v@.len() - i,
    {
        let c = v[i];
        if !(('a' <= c && c <= 'z') || ('A' <= c && c <= 'Z') || ('0' <= c && c <= '9') || c
            == '_') {
            return false;
        }
        i = i + 1;
    }
    true
}

/// Whether `p` matches `s` starting exactly at `i`.
pub fn match_at_exec(s: &Vec<char>, p: &Vec<char>, i: usize) -> (r: bool)
    requires
        i + p@.len() <= s@.len(),
    ensures
        r == match_at(s@, p@, i as int),
{
    let n = s.len();
    let mut k: usize = 0;
    while k < p.len()
        invariant
            0 <= k <= p@.len(),
            i + p@.len() <= s@.len(),
            n == s@.len(),
            forall|j: int| 0 <= j < k ==> s@[i + j] == p@[j],
        decreases p@.len() - k,
    {
        assert(i + k < s@.len());
        let ik = i + k;
        if s[ik] != p[k] {
            assert(s@.subrange(i as int, i + p@.len()) != p@) by {
                assert(s@.subrange(i as int, i + p@.len())[k as int] != p@[k as int]);
            }
            return false;
        }
        k = k + 1;
    }
    assert(s@.subrange(i as int, i + p@.len()) =~= p@);
    true
}

/// Whether `p` occurs anywhere in `s`.
pub fn contains_sub_exec(s: &Vec<char>, p: &Vec<char>) -> (r: bool)
    ensures
        r == contains_sub(s@, p@),
{
    if p.len() == 0 {
        assert(match_at(s@, p@, 0)) by {
            assert(s@.subrange(0, 0) =~= p@);
        }
        return true;
    }
    if p.len() > s.len() {
        assert(!contains_sub(s@, p@));
        return false;
    }
    let stop = s.len() - p.len();
    let mut i: usize = 0;
    while i <= stop
        invariant
            0 <= i <= stop + 1,
            1 <= p@.len(),
            s@.len() <= usize::MAX,
            stop == s@.len() - p@.len(),
            forall|j: int| 0 <= j < i ==> !match_at(s@, p@, j),
        decreases stop + 1 - i,
    {
        if match_at_exec(s, p, i) {
            assert(contains_sub(s@, p@));
            return true;
        }
        assert(i < stop + 1);
        i = i + 1;
    }
    assert(forall|j: int| match_at(s@, p@, j) ==> 0 <= j && j + p@.len() <= s@.len());
    false
}

/// Appends the characters of `add` to `buf`.
pub fn push_chars(buf: &mut Vec<char>, add: &Vec<char>)
    ensures
        final(buf)@ == old(buf)@ + add@,
{
    let mut i: usize = 0;
    while i < add.len()
        invariant
            0 <= i <= add@.len(),
            buf@ == old(buf)@ + add@.subrange(0, i as int),
        decreases add@.len() - i,
    {
        buf.push(add[i]);
        assert(buf@ =~= old(buf)@ + add@.subrange(0, i + 1));
        i = i + 1;
    }
    assert(buf@ =~= old(buf)@ + add@);
}

/// Appends the characters of the string `add` to `buf`.
pub fn push_str_chars(buf: &mut Vec<char>, add: &String)
    ensures
        final(buf)@ == old(buf)@ + add@,
{
    let cs = chars_of(add.as_str());
    push_chars(buf, &cs);
}

/// Whether two character vectors hold the same characters.
pub fn chars_eq(a: &Vec<char>, b: &Vec<char>) -> (r: bool)
    ensures
        r == (a@ == b@),
{
    if a.len() != b.len() {
        return false;
    }
    let mut i: usize = 0;
    while i < a.len()
        invariant
            0 <= i <= a@.len(),
            a@.len() == b@.len(),
            forall|j: int| 0 <= j < i ==> a@[j] == b@[j],
        decreases a@.len() - i,
    {
        if a[i] != b[i] {
            return false;
        }
        i = i + 1;
    }
    proof {
        assert(a@ =~= b@);
    }
    true
}

/// Whether a string and a string slice hold the same characters.
pub fn string_eq_str(a: &String, b: &str) -> (r: bool)
    ensures
        r == (a@ == b@),
{
    let ca = chars_of(a.as_str());
    let cb = chars_of(b);
    chars_eq(&ca, &cb)
}

/// Where the last occurrence search ends up.
pub proof fn lemma_find_char_last_range(s: Seq<char>, c: char, j: int)
    requires
        0 <= j <= s.len(),
    ensures
        match find_char_last(s, c, j) {
            Some(k) => 0 <= k < j && s[k] == c && (forall|m: int| k < m < j ==> s[m] != c),
            None => forall|m: int| 0 <= m < j ==> s[m] != c,
        },
    decreases j,
{
    if j > 0 && s[j - 1] != c {
        lemma_find_char_last_range(s, c, j - 1);
    }
}

} // verus!
