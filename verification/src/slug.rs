//! Slugs: registry-tag-safe names. Lowercase, with every character that
//! is not an ASCII letter, digit or dot replaced by `-`, capped at 63
//! characters.

use vstd::prelude::*;
use crate::text::{chars_of, string_of};

verus! {

/// What `str::trim` removes is a function of the characters alone.
pub uninterp spec fn trim_of(s: Seq<char>) -> Seq<char>;

/// What `str::to_lowercase` returns is a function of the characters
/// alone.
pub uninterp spec fn lower_of(s: Seq<char>) -> Seq<char>;

/// Relies on `str::trim`: the result, the text without leading and
/// trailing whitespace, depends on the characters alone; an empty
/// text stays empty.
#[verifier::external_body]
fn trim_str(s: &str) -> (r: &str)
    ensures
        r@ == trim_of(s@),
        s@.len() == 0 ==> r@.len() == 0,
{
    s.trim()
}

/// Relies on `str::to_lowercase`: the result depends on the characters
/// alone; an empty text stays empty.
#[verifier::external_body]
pub(crate) fn lowercase_str(s: &str) -> (r: String)
    ensures
        r@ == lower_of(s@),
        s@.len() == 0 ==> r@.len() == 0,
{
    s.to_lowercase()
}

/// A character a slug keeps as it is.
pub open spec fn slug_keeps(c: char) -> bool {
    ('a' <= c && c <= 'z') || ('A' <= c && c <= 'Z') || ('0' <= c && c <= '9') || c == '.'
}

/// One slug character.
pub open spec fn slug_char(c: char) -> char {
    if slug_keeps(c) {
        c
    } else {
        '-'
    }
}

/// The length cap of a slug.
pub open spec fn slug_cap(n: int) -> int {
    if n <= 63 {
        n
    } else {
        63
    }
}

/// The slug of an already trimmed, lowercased text.
pub open spec fn slug_map(s: Seq<char>) -> Seq<char> {
    s.map_values(|c: char| slug_char(c)).subrange(0, slug_cap(s.len() as int))
}

/// The slug of arbitrary text: trimmed, lowercased, then mapped.
pub open spec fn slug_of(s: Seq<char>) -> Seq<char> {
    slug_map(lower_of(trim_of(s)))
}

/// The slug of `input`: its trimmed, lowercased form with every character
/// that is not an ASCII letter, digit or dot replaced by `-`, capped at
/// 63 characters.
pub fn get_slug(input: &str) -> (r: String)
    ensures
        r@ == slug_of(input@),
{
    let t = trim_str(input);
    let lowered = lowercase_str(t);
    let cs = chars_of(lowered.as_str());
    let ghost low = lowered@;
    let cap: usize = if cs.len() <= 63 {
        cs.len()
    } else {
        63
    };
    let mut out: Vec<char> = Vec::new();
    let mut i: usize = 0;
    while i < cap
        invariant
            0 <= i <= cap,
            cap == slug_cap(low.len() as int),
            cs@ == low,
            out@ == low.map_values(|c: char| slug_char(c)).subrange(0, i as int),
        decreases cap - i,
    {
        let c = cs[i];
        if ('a' <= c && c <= 'z') || ('A' <= c && c <= 'Z') || ('0' <= c && c <= '9') || c
            == '.' {
            out.push(c);
        } else {
            out.push('-');
        }
        proof {
            assert(out@ =~= low.map_values(|c: char| slug_char(c)).subrange(0, i + 1));
        }
        i = i + 1;
    }
    proof {
        assert(out@ == slug_map(low));
    }
    string_of(&out)
}

} // verus!
