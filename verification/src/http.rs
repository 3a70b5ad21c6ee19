//! The fallback-address rule of the download command: when a resource is
//! missing, a second address is built by replacing every occurrence of
//! the script's left part with its right part. The download itself is
//! made by the program around this library.

use vstd::prelude::*;
use crate::text::{match_at, contains_sub, chars_of, string_of, match_at_exec,
    contains_sub_exec, push_chars};

verus! {

/// The first position at or after `i` where `p` occurs in `s`.
pub open spec fn first_match_from(s: Seq<char>, p: Seq<char>, i: int) -> Option<int>
    decreases s.len() - i,
{
    if i < 0 || p.len() == 0 || i + p.len() > s.len() {
        None
    } else if match_at(s, p, i) {
        Some(i)
    } else {
        first_match_from(s, p, i + 1)
    }
}

pub proof fn lemma_first_match_range(s: Seq<char>, p: Seq<char>, i: int)
    requires
        0 <= i,
        1 <= p.len(),
    ensures
        match first_match_from(s, p, i) {
            Some(k) => i <= k && k + p.len() <= s.len() && match_at(s, p, k) && (forall|
                j: int,
            |
                i <= j < k ==> !match_at(s, p, j)),
            None => forall|j: int| i <= j ==> !match_at(s, p, j),
        },
    decreases s.len() - i,
{
    if !(i + p.len() > s.len()) && !match_at(s, p, i) {
        lemma_first_match_range(s, p, i + 1);
    } else if i + p.len() > s.len() {
        assert forall|j: int| i <= j implies !match_at(s, p, j) by {}
    }
}

/// `s` from position `i` on, with every occurrence of `p` replaced by
/// `r`, scanning left to right without overlap.
pub open spec fn replace_from(s: Seq<char>, p: Seq<char>, r: Seq<char>, i: int) -> Seq<
    char,
>
    decreases s.len() - i,
    via replace_from_dec
{
    if i < 0 || p.len() == 0 {
        s.subrange(0, 0)
    } else {
        match first_match_from(s, p, i) {
            Some(j) => s.subrange(i, j) + r + replace_from(s, p, r, j + p.len()),
            None => if i <= s.len() {
                s.subrange(i, s.len() as int)
            } else {
                s.subrange(0, 0)
            },
        }
    }
}

#[via_fn]
proof fn replace_from_dec(s: Seq<char>, p: Seq<char>, r: Seq<char>, i: int) {
    if i >= 0 && p.len() > 0 {
        lemma_first_match_range(s, p, i);
    }
}

/// `s` with every occurrence of `p` replaced by `r`; an empty pattern
/// changes nothing.
pub open spec fn replace_all(s: Seq<char>, p: Seq<char>, r: Seq<char>) -> Seq<char> {
    if p.len() == 0 {
        s
    } else {
        replace_from(s, p, r, 0)
    }
}

/// The first occurrence of `p` at or after `from`, executable side.
fn first_match_exec(s: &Vec<char>, p: &Vec<char>, from: usize) -> (r: Option<usize>)
    requires
        p@.len() >= 1,
    ensures
        match r {
            Some(k) => first_match_from(s@, p@, from as int) == Some(k as int),
            None => first_match_from(s@, p@, from as int) is None,
        },
{
    let n = s.len();
    let m = p.len();
    let mut k = from;
    loop
        invariant
            from <= k,
            p@.len() >= 1,
            n == s@.len(),
            m == p@.len(),
            first_match_from(s@, p@, from as int) == first_match_from(s@, p@, k as int),
        decreases s@.len() + p@.len() - k,
    {
        if k >= n {
            return None;
        }
        if m > n - k {
            return None;
        }
        if match_at_exec(s, p, k) {
            return Some(k);
        }
        k = k + 1;
    }
}

/// Replaces every occurrence of `pat` in `s` with `rep`.
pub fn replace_all_exec(s: &str, pat: &str, rep: &str) -> (r: String)
    ensures
        r@ == replace_all(s@, pat@, rep@),
{
    let cs = chars_of(s);
    let pc = chars_of(pat);
    let rc = chars_of(rep);
    if pc.len() == 0 {
        return string_of(&cs);
    }
    let ns = cs.len();
    let plen = pc.len();
    let mut out: Vec<char> = Vec::new();
    let mut i: usize = 0;
    proof {
        assert(out@ + replace_from(s@, pat@, rep@, 0) =~= replace_from(s@, pat@, rep@, 0));
    }
    loop
        invariant_except_break
            0 <= i,
            cs@ == s@,
            pc@ == pat@,
            rc@ == rep@,
            ns == s@.len(),
            plen == pat@.len(),
            pc@.len() >= 1,
            out@ + replace_from(s@, pat@, rep@, i as int) == replace_from(
                s@,
                pat@,
                rep@,
                0,
            ),
        ensures
            out@ == replace_from(s@, pat@, rep@, 0),
        decreases s@.len() + pat@.len() - i,
    {
        match first_match_exec(&cs, &pc, i) {
            Some(j) => {
                proof {
                    lemma_first_match_range(s@, pat@, i as int);
                }
                let ghost pre = out@;
                let seg = crate::text::sub_chars(&cs, i, j);
                push_chars(&mut out, &seg);
                push_chars(&mut out, &rc);
                proof {
                    assert(out@ =~= pre + (s@.subrange(i as int, j as int) + rep@));
                    assert(out@ + replace_from(s@, pat@, rep@, j + pat@.len())
                        =~= replace_from(s@, pat@, rep@, 0));
                    assert(j + plen <= ns);
                }
                i = j + plen;
            },
            None => {
                proof {
                    lemma_first_match_range(s@, pat@, i as int);
                }
                if i <= ns {
                    let seg = crate::text::sub_chars(&cs, i, ns);
                    push_chars(&mut out, &seg);
                    proof {
                        assert(out@ =~= replace_from(s@, pat@, rep@, 0));
                    }
                } else {
                    proof {
                        assert(replace_from(s@, pat@, rep@, i as int) =~= Seq::<
                            char,
                        >::empty());
                        assert(out@ =~= replace_from(s@, pat@, rep@, 0));
                    }
                }
                break;
            },
        }
    }
    string_of(&out)
}

/// The fallback address for a script: when the address holds the
/// script's left part, every occurrence is replaced with the right part;
/// otherwise there is no fallback.
pub fn fallback_url(url: &str, left: &str, right: &str) -> (r: Option<String>)
    ensures
        match r {
            Some(u) => contains_sub(url@, left@) && u@ == replace_all(url@, left@, right@),
            None => !contains_sub(url@, left@),
        },
{
    let uc = chars_of(url);
    let lc = chars_of(left);
    if contains_sub_exec(&uc, &lc) {
        Some(replace_all_exec(url, left, right))
    } else {
        None
    }
}

} // verus!
