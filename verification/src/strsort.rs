//! Lexicographically sorted lists of strings: the order's laws and
//! verified sorted insertion, with and without duplicates.

use vstd::prelude::*;
use crate::text::{str_le, str_le_from, chars_of, str_le_exec};

verus! {

/// The views of a vector of strings, in order.
pub open spec fn strs_v(v: Seq<String>) -> Seq<Seq<char>> {
    v.map_values(|s: String| s@)
}

/// Strict lexicographic order.
pub open spec fn str_lt(a: Seq<char>, b: Seq<char>) -> bool {
    str_le(a, b) && a != b
}

/// Non-decreasing in every pair.
pub open spec fn sorted_le(s: Seq<Seq<char>>) -> bool {
    forall|i: int, j: int| 0 <= i < j < s.len() ==> str_le(#[trigger] s[i], #[trigger] s[j])
}

/// Strictly increasing in every pair: sorted and without duplicates.
pub open spec fn sorted_lt(s: Seq<Seq<char>>) -> bool {
    forall|i: int, j: int| 0 <= i < j < s.len() ==> str_lt(#[trigger] s[i], #[trigger] s[j])
}

/// Distinct characters have distinct code points.
proof fn lemma_char_neq(a: char, b: char)
    requires
        a != b,
    ensures
        (a as u32) != (b as u32),
{
}

proof fn lemma_le_total_from(a: Seq<char>, b: Seq<char>, i: int)
    ensures
        str_le_from(a, b, i) || str_le_from(b, a, i),
    decreases a.len() - i,
{
    if i < 0 {
    } else if i >= a.len() {
    } else if i >= b.len() {
    } else if a[i] == b[i] {
        lemma_le_total_from(a, b, i + 1);
    } else {
        lemma_char_neq(a[i], b[i]);
    }
}

/// One of any two strings comes first.
pub proof fn lemma_str_le_total(a: Seq<char>, b: Seq<char>)
    ensures
        str_le(a, b) || str_le(b, a),
{
    lemma_le_total_from(a, b, 0);
}

proof fn lemma_le_antisym_from(a: Seq<char>, b: Seq<char>, i: int)
    requires
        0 <= i <= a.len(),
        i <= b.len(),
        str_le_from(a, b, i),
        str_le_from(b, a, i),
        forall|j: int| 0 <= j < i ==> a[j] == b[j],
        a.len() >= i ==> true,
    ensures
        a == b,
    decreases a.len() - i,
{
    if i >= a.len() {
        if i >= b.len() {
            assert(a =~= b);
        } else {
            assert(!str_le_from(b, a, i));
        }
    } else if i >= b.len() {
        assert(!str_le_from(a, b, i));
    } else if a[i] == b[i] {
        lemma_le_antisym_from(a, b, i + 1);
    } else {
        assert(!str_le_from(a, b, i) || !str_le_from(b, a, i));
    }
}

/// Mutual order means equality.
pub proof fn lemma_str_le_antisym(a: Seq<char>, b: Seq<char>)
    requires
        str_le(a, b),
        str_le(b, a),
    ensures
        a == b,
{
    lemma_le_antisym_from(a, b, 0);
}

proof fn lemma_le_trans_from(a: Seq<char>, b: Seq<char>, c: Seq<char>, i: int)
    requires
        0 <= i,
        str_le_from(a, b, i),
        str_le_from(b, c, i),
    ensures
        str_le_from(a, c, i),
    decreases a.len() - i,
{
    if i >= a.len() {
    } else if i >= c.len() {
        if i >= b.len() {
            assert(!str_le_from(a, b, i));
        } else {
            assert(!str_le_from(b, c, i));
        }
    } else if i >= b.len() {
        assert(!str_le_from(a, b, i));
    } else {
        if a[i] == b[i] && b[i] == c[i] {
            lemma_le_trans_from(a, b, c, i + 1);
        } else if a[i] == c[i] {
            // a[i] == c[i] but the chain passes through a different b[i]:
            // both steps cannot hold at once
            if a[i] != b[i] {
                lemma_char_neq(a[i], b[i]);
                if b[i] != c[i] {
                    lemma_char_neq(b[i], c[i]);
                }
            }
        } else {
        }
    }
}

/// The order is transitive.
pub proof fn lemma_str_le_trans(a: Seq<char>, b: Seq<char>, c: Seq<char>)
    requires
        str_le(a, b),
        str_le(b, c),
    ensures
        str_le(a, c),
{
    lemma_le_trans_from(a, b, c, 0);
}

/// Compares two strings.
pub fn str_le_strings(a: &String, b: &String) -> (r: bool)
    ensures
        r == str_le(a@, b@),
{
    let ca = chars_of(a.as_str());
    let cb = chars_of(b.as_str());
    str_le_exec(&ca, &cb)
}

/// Inserts `x` into a strictly sorted list, keeping it strictly sorted;
/// a string already present is not added again.
pub fn insert_sorted_unique(v: &mut Vec<String>, x: &String)
    requires
        sorted_lt(strs_v(old(v)@)),
    ensures
        sorted_lt(strs_v(final(v)@)),
        strs_v(final(v)@).to_set() == strs_v(old(v)@).to_set().insert(x@),
{
    let ghost olds = strs_v(v@);
    let mut i: usize = 0;
    while i < v.len() && !str_le_strings(x, &v[i])
        invariant
            0 <= i <= v@.len(),
            olds == strs_v(v@),
            sorted_lt(olds),
            forall|j: int| 0 <= j < i ==> !str_le(x@, #[trigger] olds[j]),
        decreases v@.len() - i,
    {
        i = i + 1;
    }
    proof {
        assert forall|j: int| 0 <= j < i implies str_lt(#[trigger] olds[j], x@) by {
            lemma_str_le_total(x@, olds[j]);
            if olds[j] == x@ {
                assert(str_le(x@, olds[j]));
            }
        }
    }
    if i < v.len() {
        let same = String::eq(x, &v[i]);
        if same {
            proof {
                assert(olds[i as int] == x@);
                assert(olds.contains(x@));
                assert(strs_v(v@).to_set() =~= strs_v(v@).to_set().insert(x@));
            }
            return;
        }
    }
    v.insert(i, x.clone());
    proof {
        let news = strs_v(v@);
        assert(news =~= olds.insert(i as int, x@)) by {
            assert(v@ == old(v)@.insert(i as int, *x));
        }
        // strict order holds around position i
        assert forall|p: int, q: int| 0 <= p < q < news.len() implies str_lt(
            #[trigger] news[p],
            #[trigger] news[q],
        ) by {
            if q < i {
                assert(news[p] == olds[p] && news[q] == olds[q]);
            } else if p > i {
                assert(news[p] == olds[p - 1] && news[q] == olds[q - 1]);
            } else if p < i && q == i {
                assert(news[p] == olds[p] && news[q] == x@);
            } else if p == i {
                assert(news[p] == x@ && news[q] == olds[q - 1]);
                assert(str_le(x@, olds[i as int]) && olds[i as int] != x@);
                if q - 1 > i {
                    assert(str_lt(olds[i as int], olds[q - 1]));
                    lemma_str_le_trans(x@, olds[i as int], olds[q - 1]);
                    if olds[q - 1] == x@ {
                        lemma_str_le_antisym(x@, olds[i as int]);
                    }
                }
            } else if p < i && q > i {
                assert(news[p] == olds[p] && news[q] == olds[q - 1]);
                assert(str_lt(olds[p], x@));
                assert(str_le(x@, olds[i as int]));
                if q - 1 == i {
                    lemma_str_le_trans(olds[p], x@, olds[q - 1]);
                    if olds[p] == olds[q - 1] {
                        lemma_str_le_antisym(x@, olds[p]);
                    }
                } else {
                    assert(str_lt(olds[p], olds[q - 1]));
                }
            }
        }
        assert(news.to_set() =~= olds.to_set().insert(x@)) by {
            assert forall|y: Seq<char>| news.contains(y) implies olds.contains(y) || y
                == x@ by {
                let k = choose|k: int| 0 <= k < news.len() && news[k] == y;
                if k < i {
                    assert(olds[k] == y);
                } else if k > i {
                    assert(olds[k - 1] == y);
                }
            }
            assert forall|y: Seq<char>| olds.contains(y) implies news.contains(y) by {
                let k = choose|k: int| 0 <= k < olds.len() && olds[k] == y;
                if k < i {
                    assert(news[k] == y);
                } else {
                    assert(news[k + 1] == y);
                }
            }
            assert(news.contains(x@)) by {
                assert(news[i as int] == x@);
            }
        }
    }
}

/// Inserts `x` into a sorted list, keeping it sorted; duplicates stay.
pub fn insert_sorted(v: &mut Vec<String>, x: &String)
    requires
        sorted_le(strs_v(old(v)@)),
    ensures
        sorted_le(strs_v(final(v)@)),
        strs_v(final(v)@).to_multiset() == strs_v(old(v)@).to_multiset().insert(x@),
{
    broadcast use vstd::seq_lib::group_to_multiset_ensures;

    let ghost olds = strs_v(v@);
    let mut i: usize = 0;
    while i < v.len() && !str_le_strings(x, &v[i])
        invariant
            0 <= i <= v@.len(),
            olds == strs_v(v@),
            sorted_le(olds),
            forall|j: int| 0 <= j < i ==> !str_le(x@, #[trigger] olds[j]),
        decreases v@.len() - i,
    {
        i = i + 1;
    }
    proof {
        assert forall|j: int| 0 <= j < i implies str_le(#[trigger] olds[j], x@) by {
            lemma_str_le_total(x@, olds[j]);
        }
    }
    v.insert(i, x.clone());
    proof {
        let news = strs_v(v@);
        assert(news =~= olds.insert(i as int, x@)) by {
            assert(v@ == old(v)@.insert(i as int, *x));
        }
        assert forall|p: int, q: int| 0 <= p < q < news.len() implies str_le(
            #[trigger] news[p],
            #[trigger] news[q],
        ) by {
            if q < i {
                assert(news[p] == olds[p] && news[q] == olds[q]);
            } else if p > i {
                assert(news[p] == olds[p - 1] && news[q] == olds[q - 1]);
            } else if p < i && q == i {
                assert(news[p] == olds[p] && news[q] == x@);
            } else if p == i {
                assert(news[p] == x@ && news[q] == olds[q - 1]);
                if q - 1 > i {
                    assert(str_le(x@, olds[i as int]));
                    assert(str_le(olds[i as int], olds[q - 1]));
                    lemma_str_le_trans(x@, olds[i as int], olds[q - 1]);
                }
            } else if p < i && q > i {
                assert(news[p] == olds[p] && news[q] == olds[q - 1]);
                if q - 1 == i {
                    assert(str_le(olds[p], x@) && str_le(x@, olds[i as int]));
                    lemma_str_le_trans(olds[p], x@, olds[q - 1]);
                } else {
                    assert(str_le(olds[p], olds[q - 1]));
                }
            }
        }
        assert(news.to_multiset() == olds.to_multiset().insert(x@));
    }
}

/// The lexicographic order as a relation value.
pub open spec fn str_le_rel() -> spec_fn(Seq<char>, Seq<char>) -> bool {
    |a: Seq<char>, b: Seq<char>| str_le(a, b)
}

/// The lexicographic order is a total order.
pub proof fn lemma_str_le_total_ordering()
    ensures
        vstd::relations::total_ordering(str_le_rel()),
{
    let leq = str_le_rel();
    assert forall|a: Seq<char>| #[trigger] leq(a, a) by {
        lemma_str_le_total(a, a);
    }
    assert forall|a: Seq<char>, b: Seq<char>| #[trigger] leq(a, b) && #[trigger] leq(
        b,
        a,
    ) implies a == b by {
        lemma_str_le_antisym(a, b);
    }
    assert forall|a: Seq<char>, b: Seq<char>, c: Seq<char>|
        #[trigger] leq(a, b) && #[trigger] leq(b, c) implies leq(a, c) by {
        lemma_str_le_trans(a, b, c);
    }
    assert forall|a: Seq<char>, b: Seq<char>| #[trigger] leq(a, b) || #[trigger] leq(
        b,
        a,
    ) by {
        lemma_str_le_total(a, b);
    }
}

/// Two sorted lists holding the same strings the same number of times
/// are the same list.
pub proof fn lemma_sorted_le_unique(x: Seq<Seq<char>>, y: Seq<Seq<char>>)
    requires
        sorted_le(x),
        sorted_le(y),
        x.to_multiset() == y.to_multiset(),
    ensures
        x == y,
{
    let leq = str_le_rel();
    lemma_str_le_total_ordering();
    assert forall|i: int, j: int| 0 <= i < j < x.len() implies #[trigger] leq(
        x[i],
        x[j],
    ) by {
        assert(str_le(x[i], x[j]));
    }
    assert forall|i: int, j: int| 0 <= i < j < y.len() implies #[trigger] leq(
        y[i],
        y[j],
    ) by {
        assert(str_le(y[i], y[j]));
    }
    vstd::seq_lib::lemma_sorted_unique(x, y, leq);
    assert(x =~= y);
}

/// Two strictly sorted lists holding the same set of strings are the
/// same list.
pub proof fn lemma_sorted_lt_unique(x: Seq<Seq<char>>, y: Seq<Seq<char>>)
    requires
        sorted_lt(x),
        sorted_lt(y),
        x.to_set() == y.to_set(),
    ensures
        x == y,
{
    broadcast use vstd::seq_lib::group_to_multiset_ensures;

    assert(x.no_duplicates());
    assert(y.no_duplicates());
    x.lemma_multiset_has_no_duplicates();
    y.lemma_multiset_has_no_duplicates();
    assert(x.to_multiset() =~= y.to_multiset()) by {
        assert forall|e: Seq<char>|
            #[trigger] x.to_multiset().count(e) == y.to_multiset().count(e) by {
            assert(x.to_multiset().contains(e) == x.contains(e));
            assert(y.to_multiset().contains(e) == y.contains(e));
            assert(x.contains(e) == x.to_set().contains(e));
            assert(y.contains(e) == y.to_set().contains(e));
            if x.contains(e) {
                assert(x.to_multiset().count(e) == 1 && y.to_multiset().count(e) == 1);
            } else {
                assert(x.to_multiset().count(e) == 0) by {
                    if x.to_multiset().count(e) > 0 {
                        assert(x.to_multiset().contains(e));
                    }
                }
                assert(y.to_multiset().count(e) == 0) by {
                    if y.to_multiset().count(e) > 0 {
                        assert(y.to_multiset().contains(e));
                    }
                }
            }
        }
    }
    assert(sorted_le(x)) by {
        assert forall|i: int, j: int| 0 <= i < j < x.len() implies str_le(
            #[trigger] x[i],
            #[trigger] x[j],
        ) by {
            assert(str_lt(x[i], x[j]));
        }
    }
    assert(sorted_le(y)) by {
        assert forall|i: int, j: int| 0 <= i < j < y.len() implies str_le(
            #[trigger] y[i],
            #[trigger] y[j],
        ) by {
            assert(str_lt(y[i], y[j]));
        }
    }
    lemma_sorted_le_unique(x, y);
}

} // verus!
