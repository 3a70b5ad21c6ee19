//! Helpers around the command line: reading filter options and picking
//! the configuration file among the standard names.

use vstd::prelude::*;
use crate::engine::{FilterRule, regex_valid};
use crate::text::{match_at, chars_of, string_of, sub_chars, match_at_exec};
use crate::strsort::strs_v;

verus! {

/// Reads a `tag=VALUE` images filter. The error carries the filter as
/// given.
pub fn unwrap_filter_tag(filter: Option<&str>) -> (r: Result<Option<String>, String>)
    ensures
        match r {
            Ok(v) => match v {
                None => filter is None,
                Some(t) => filter matches Some(f) && match_at(f@, "tag="@, 0) && t@ == f@
                    .subrange(4, f@.len() as int),
            },
            Err(m) => filter matches Some(f) && !match_at(f@, "tag="@, 0) && m@ == f@,
        },
{
    match filter {
        None => Ok(None),
        Some(f) => {
            let cs = chars_of(f);
            let pat = chars_of("tag=");
            proof {
                reveal_strlit("tag=");
            }
            if cs.len() >= 4 && match_at_exec(&cs, &pat, 0) {
                let rest = sub_chars(&cs, 4, cs.len());
                Ok(Some(string_of(&rest)))
            } else {
                proof {
                    if match_at(f@, "tag="@, 0) {
                        assert(f@.len() >= 4);
                    }
                }
                Err(f.to_owned())
            }
        },
    }
}

/// Reads a `regex=EXPR` or `regex!=EXPR` filter into a rule; the pattern
/// must compile. The error carries the pattern, or the whole filter when
/// neither prefix fits.
pub fn unwrap_filter_regex(filter: Option<&str>) -> (r: Result<Option<FilterRule>, String>)
    ensures
        match r {
            Ok(v) => match v {
                None => filter is None,
                Some(rule) => filter matches Some(f) && regex_valid(rule.pattern@) && ((
                match_at(f@, "regex="@, 0) && !match_at(f@, "regex!="@, 0)
                    && rule.affirmative && rule.pattern@ == f@.subrange(
                    6,
                    f@.len() as int,
                )) || (match_at(f@, "regex!="@, 0) && !rule.affirmative && rule.pattern@
                    == f@.subrange(7, f@.len() as int))),
            },
            Err(m) => filter matches Some(f) && ((match_at(f@, "regex="@, 0) && !match_at(
                f@,
                "regex!="@,
                0,
            ) && !regex_valid(f@.subrange(6, f@.len() as int)) && m@ == f@.subrange(
                6,
                f@.len() as int,
            )) || (match_at(f@, "regex!="@, 0) && !regex_valid(
                f@.subrange(7, f@.len() as int),
            ) && m@ == f@.subrange(7, f@.len() as int)) || (!match_at(f@, "regex="@, 0)
                && !match_at(f@, "regex!="@, 0) && m@ == f@)),
        },
{
    match filter {
        None => Ok(None),
        Some(f) => {
            let cs = chars_of(f);
            let pat_eq = chars_of("regex=");
            let pat_ne = chars_of("regex!=");
            proof {
                reveal_strlit("regex=");
                reveal_strlit("regex!=");
            }
            let is_ne = cs.len() >= 7 && match_at_exec(&cs, &pat_ne, 0);
            let is_eq = !is_ne && cs.len() >= 6 && match_at_exec(&cs, &pat_eq, 0);
            proof {
                if match_at(f@, "regex="@, 0) {
                    assert(f@.len() >= 6);
                }
                if match_at(f@, "regex!="@, 0) {
                    assert(f@.len() >= 7);
                }
                if match_at(f@, "regex="@, 0) && match_at(f@, "regex!="@, 0) {
                    assert(f@.subrange(0, 6)[5] == '=');
                    assert(f@.subrange(0, 7)[5] == '!');
                    assert(f@[5] == '=' && f@[5] == '!');
                }
            }
            if is_eq || is_ne {
                let skip: usize = if is_ne {
                    7
                } else {
                    6
                };
                let rest = sub_chars(&cs, skip, cs.len());
                let pattern = string_of(&rest);
                let rule = FilterRule { pattern, affirmative: is_eq };
                if crate::engine::filter_rule_valid(&rule) {
                    Ok(Some(rule))
                } else {
                    Err(rule.pattern)
                }
            } else {
                Err(f.to_owned())
            }
        },
    }
}

/// The standard configuration file names, in the order they are tried.
pub fn compose_paths() -> (r: Vec<String>)
    ensures
        strs_v(r@) == seq![
            "compose.yaml"@,
            "compose.yml"@,
            "docker-compose.yaml"@,
            "docker-compose.yml"@,
        ],
{
    let mut r: Vec<String> = Vec::new();
    r.push(String::from_str("compose.yaml"));
    r.push(String::from_str("compose.yml"));
    r.push(String::from_str("docker-compose.yaml"));
    r.push(String::from_str("docker-compose.yml"));
    proof {
        assert(strs_v(r@) =~= seq![
            "compose.yaml"@,
            "compose.yml"@,
            "docker-compose.yaml"@,
            "docker-compose.yml"@,
        ]);
    }
    r
}

/// How many of the flags are set.
pub open spec fn count_true(present: Seq<bool>) -> int
    decreases present,
{
    if present.len() == 0 {
        0
    } else {
        (if present[0] {
            1int
        } else {
            0int
        }) + count_true(present.drop_first())
    }
}

/// The first set flag's position.
pub open spec fn first_true(present: Seq<bool>) -> Option<int>
    decreases present,
{
    if present.len() == 0 {
        None
    } else if present[0] {
        Some(0int)
    } else {
        match first_true(present.drop_first()) {
            Some(i) => Some(i + 1),
            None => None,
        }
    }
}

/// Given which of the standard names exist, picks the file to use: the
/// first present one, and whether more than one was present. Fails when
/// none is present.
pub fn pick_compose_filename(names: &Vec<String>, present: &Vec<bool>) -> (r: Result<
    (String, bool),
    (),
>)
    requires
        names@.len() == present@.len(),
    ensures
        match r {
            Ok(p) => first_true(present@) matches Some(i) && p.0@ == names@[i]@ && p.1 == (
            count_true(present@) > 1),
            Err(_) => count_true(present@) == 0,
        },
{
    let ghost pv = present@;
    proof {
        assert(pv.subrange(0, pv.len() as int) =~= pv);
    }
    let mut count: usize = 0;
    let mut first: Option<usize> = None;
    let mut i: usize = 0;
    while i < present.len()
        invariant
            0 <= i <= pv.len(),
            pv == present@,
            names@.len() == pv.len(),
            count <= i,
            count == count_true(pv.subrange(0, i as int)),
            match first {
                Some(k) => first_true(pv) == Some(k as int) && k < i,
                None => forall|j: int| 0 <= j < i ==> !pv[j],
            },
        decreases pv.len() - i,
    {
        proof {
            lemma_count_first_step(pv, i as int);
        }
        if present[i] {
            count = count + 1;
            if first.is_none() {
                first = Some(i);
                proof {
                    lemma_first_true_at(pv, i as int);
                }
            }
        }
        i = i + 1;
    }
    proof {
        assert(pv.subrange(0, pv.len() as int) =~= pv);
        lemma_count_total(pv);
    }
    match first {
        Some(k) => {
            let name = names[k].clone();
            Ok((name, count > 1))
        },
        None => {
            proof {
                lemma_no_true(pv);
            }
            Err(())
        },
    }
}

proof fn lemma_count_first_step(pv: Seq<bool>, i: int)
    requires
        0 <= i < pv.len(),
    ensures
        count_true(pv.subrange(0, i + 1)) == count_true(pv.subrange(0, i)) + (
        if pv[i] {
            1int
        } else {
            0int
        }),
    decreases i,
{
    let a = pv.subrange(0, i + 1);
    let b = pv.subrange(0, i);
    if i == 0 {
        assert(a.drop_first() =~= Seq::<bool>::empty());
        assert(b =~= Seq::<bool>::empty());
    } else {
        lemma_count_first_step(pv.subrange(1, pv.len() as int), i - 1);
        assert(a.drop_first() =~= pv.subrange(1, pv.len() as int).subrange(0, i));
        assert(b.drop_first() =~= pv.subrange(1, pv.len() as int).subrange(0, i - 1));
        assert(a[0] == pv[0] && b[0] == pv[0]);
    }
}

proof fn lemma_count_total(pv: Seq<bool>)
    ensures
        count_true(pv.subrange(0, pv.len() as int)) == count_true(pv),
{
    assert(pv.subrange(0, pv.len() as int) =~= pv);
}

proof fn lemma_first_true_at(pv: Seq<bool>, i: int)
    requires
        0 <= i < pv.len(),
        pv[i],
        forall|j: int| 0 <= j < i ==> !pv[j],
    ensures
        first_true(pv) == Some(i),
    decreases i,
{
    if i == 0 {
    } else {
        assert(!pv[0]);
        assert forall|j: int| 0 <= j < i - 1 implies !pv.drop_first()[j] by {
            assert(pv.drop_first()[j] == pv[j + 1]);
        }
        assert(pv.drop_first()[i - 1] == pv[i]);
        lemma_first_true_at(pv.drop_first(), i - 1);
    }
}

proof fn lemma_no_true(pv: Seq<bool>)
    requires
        forall|j: int| 0 <= j < pv.len() ==> !pv[j],
    ensures
        count_true(pv) == 0,
    decreases pv,
{
    if pv.len() > 0 {
        assert forall|j: int| 0 <= j < pv.drop_first().len() implies !pv.drop_first()[j] by {
            assert(pv.drop_first()[j] == pv[j + 1]);
        }
        lemma_no_true(pv.drop_first());
    }
}

} // verus!
