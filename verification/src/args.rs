//! The command-line surface as plain data, and the small parsers its
//! option values go through.

use vstd::prelude::*;
use crate::verbose::Verbosity;
use crate::text::{all_digits, find_char_from, chars_of, string_of, sub_chars};
use crate::lines::lemma_find_char_range;

verus! {

/// What the program was asked to do.
pub struct Args {
    pub command: Commands,
    pub filenames: Vec<String>,
    pub verbose: bool,
    pub quiet: bool,
    pub no_docker: bool,
    pub no_consistency: bool,
}

impl Args {
    /// The verbosity the flags ask for; `verbose` wins over `quiet`.
    pub fn get_verbosity(&self) -> (r: Verbosity)
        ensures
            self.verbose ==> r is Verbose,
            !self.verbose && self.quiet ==> r is Quiet,
            !self.verbose && !self.quiet ==> r is Info,
    {
        if self.verbose {
            Verbosity::Verbose
        } else if self.quiet {
            Verbosity::Quiet
        } else {
            Verbosity::Info
        }
    }
}

/// The subcommands.
pub enum Commands {
    /// list objects found in the configuration
    List { object: Objects, pretty: Formats },
    /// parse, resolve and render the configuration canonically
    Config {
        output: Option<String>,
        tag: Option<String>,
        tag_filter: Option<String>,
        ignore_unauthorized: bool,
        no_slug: bool,
        offline: bool,
        progress: bool,
        threads: u8,
    },
    /// print the slug of a text, or of the current branch name
    Slug { text: Option<String> },
    /// download a file, with a fallback address built by a script
    Get {
        url: String,
        script: Option<(String, String)>,
        output: Option<String>,
        timeout_connect: u16,
        max_time: u16,
        headers: Vec<(String, String)>,
    },
}

/// What to list.
pub enum Objects {
    Services,
    Images {
        filter: Option<String>,
        tag: Option<String>,
        tag_filter: Option<String>,
        ignore_unauthorized: bool,
        no_slug: bool,
        offline: bool,
        progress: bool,
        threads: u8,
    },
    Depends { service: String },
    Volumes,
    Networks,
    Configs,
    Secrets,
    Profiles,
    Envs { service: String },
}

/// How to print a listing.
#[derive(Copy, Clone, PartialEq, Eq, Structural, Debug)]
pub enum Formats {
    Full,
    Oneline,
}

/// The digits of an integer literal, a leading `+` allowed.
pub open spec fn u8_digits(s: Seq<char>) -> Seq<char> {
    if s.len() > 0 && s[0] == '+' {
        s.drop_first()
    } else {
        s
    }
}

/// The value of a digit string read left to right.
pub open spec fn digits_val(s: Seq<char>, i: int, acc: int) -> int
    decreases s.len() - i,
{
    if i < 0 || i >= s.len() {
        acc
    } else {
        digits_val(s, i + 1, acc * 10 + (s[i] as int - '0' as int))
    }
}

/// The value of an integer literal.
pub open spec fn lit_value(s: Seq<char>) -> int {
    digits_val(u8_digits(s), 0, 0)
}

/// A byte-sized integer literal: one or more digits, fitting in a byte.
pub open spec fn valid_u8_lit(s: Seq<char>) -> bool {
    u8_digits(s).len() >= 1 && all_digits(u8_digits(s)) && lit_value(s) <= 255
}

proof fn lemma_digits_val_monotone(s: Seq<char>, i: int, acc: int)
    requires
        acc >= 0,
        all_digits(s),
    ensures
        digits_val(s, i, acc) >= acc,
    decreases s.len() - i,
{
    if !(i < 0 || i >= s.len()) {
        assert('0' <= s[i] && s[i] <= '9');
        crate::args::lemma_char_digit_bounds(s[i]);
        lemma_digits_val_monotone(s, i + 1, acc * 10 + (s[i] as int - '0' as int));
    }
}

/// A decimal digit's code point lies between those of `0` and `9`.
proof fn lemma_char_digit_bounds(c: char)
    requires
        '0' <= c && c <= '9',
    ensures
        0 <= c as int - '0' as int <= 9,
{
}

/// Reads a worker count: an integer from 1 to 32.
pub fn positive_less_than_32(s: &str) -> (r: Result<u8, String>)
    ensures
        match r {
            Ok(v) => valid_u8_lit(s@) && 1 <= lit_value(s@) <= 32 && v == lit_value(s@),
            Err(m) => (!valid_u8_lit(s@) && m@ == "invalid digit found in string"@) || (
            valid_u8_lit(s@) && lit_value(s@) < 1 && m@ == "less than minimum of 1"@) || (
            valid_u8_lit(s@) && lit_value(s@) > 32 && m@ == "exceeds maximum of 32"@),
        },
{
    let cs = chars_of(s);
    let ghost d = u8_digits(s@);
    let start: usize = if cs.len() > 0 && cs[0] == '+' {
        1
    } else {
        0
    };
    proof {
        assert(d =~= s@.subrange(start as int, s@.len() as int));
    }
    if start >= cs.len() {
        proof {
            assert(d.len() == 0);
        }
        return Err(String::from_str("invalid digit found in string"));
    }
    let mut acc: u32 = 0;
    let mut i: usize = start;
    while i < cs.len()
        invariant
            start <= i <= cs@.len(),
            cs@ == s@,
            d == u8_digits(s@),
            d == s@.subrange(start as int, s@.len() as int),
            d.len() == s@.len() - start,
            acc <= 255,
            forall|j: int| 0 <= j < i - start ==> crate::text::is_digit(#[trigger] d[j]),
            digits_val(d, 0, 0) == digits_val(d, i - start, acc as int),
        decreases cs@.len() - i,
    {
        let c = cs[i];
        if !('0' <= c && c <= '9') {
            proof {
                assert(d[i - start] == s@[i as int]);
                assert(!crate::text::is_digit(d[i - start]));
                assert(!all_digits(d));
            }
            return Err(String::from_str("invalid digit found in string"));
        }
        proof {
            assert(d[i - start] == s@[i as int]);
            lemma_char_digit_bounds(c);
        }
        let dv: u32 = (c as u32) - ('0' as u32);
        proof {
            assert(dv == c as int - '0' as int);
        }
        let next: u32 = acc * 10 + dv;
        if next > 255 {
            proof {
                if all_digits(d) {
                    assert(acc * 10 + (d[i - start] as int - '0' as int) == next as int);
                    assert(digits_val(d, i - start, acc as int) == digits_val(
                        d,
                        i - start + 1,
                        acc * 10 + (d[i - start] as int - '0' as int),
                    ));
                    lemma_digits_val_monotone(d, i - start + 1, next as int);
                    assert(lit_value(s@) >= next);
                }
            }
            return Err(String::from_str("invalid digit found in string"));
        }
        acc = next;
        i = i + 1;
    }
    proof {
        assert(i - start == d.len());
        assert(all_digits(d));
        assert(digits_val(d, d.len() as int, acc as int) == acc);
        assert(lit_value(s@) == acc);
    }
    if acc < 1 {
        return Err(String::from_str("less than minimum of 1"));
    }
    if acc > 32 {
        return Err(String::from_str("exceeds maximum of 32"));
    }
    Ok(acc as u8)
}

/// Rejects an empty option value.
pub fn string_no_empty(s: &str) -> (r: Result<String, String>)
    ensures
        match r {
            Ok(v) => s@.len() > 0 && v@ == s@,
            Err(m) => s@.len() == 0 && m@ == "must be at least 1 character long"@,
        },
{
    if s.unicode_len() == 0 {
        Err(String::from_str("must be at least 1 character long"))
    } else {
        Ok(s.to_owned())
    }
}

/// Reads a `left:right` script: the text before the first `:` and
/// everything after it.
pub fn string_script(s: &str) -> (r: Result<(String, String), String>)
    ensures
        match r {
            Ok(p) => s@.len() >= 2 && (match find_char_from(s@, ':', 0) {
                Some(i) => i > 0 && p.0@ == s@.subrange(0, i) && p.1@ == s@.subrange(
                    i + 1,
                    s@.len() as int,
                ),
                None => false,
            }),
            Err(m) => (s@.len() < 2 && m@ == "must be at least 2 characters long"@) || (
            s@.len() >= 2 && find_char_from(s@, ':', 0) is None && m@
                == "separator symbol : not found in the expression"@) || (s@.len() >= 2
                && find_char_from(s@, ':', 0) == Some(0int) && m@
                == "empty left expression"@),
        },
{
    let cs = chars_of(s);
    if cs.len() < 2 {
        return Err(String::from_str("must be at least 2 characters long"));
    }
    match crate::text::find_char(&cs, ':', 0) {
        None => Err(String::from_str("separator symbol : not found in the expression")),
        Some(i) => {
            proof {
                lemma_find_char_range(s@, ':', 0);
            }
            if i == 0 {
                return Err(String::from_str("empty left expression"));
            }
            let left = sub_chars(&cs, 0, i);
            let right = sub_chars(&cs, i + 1, cs.len());
            Ok((string_of(&left), string_of(&right)))
        },
    }
}

/// What `str::trim_start` removes is a function of the characters alone.
pub uninterp spec fn trim_start_of(s: Seq<char>) -> Seq<char>;

/// Relies on `str::trim_start`: the result, the text without leading
/// whitespace, depends on the characters alone; an empty text stays
/// empty.
#[verifier::external_body]
fn trim_start_str(s: &str) -> (r: &str)
    ensures
        r@ == trim_start_of(s@),
        s@.len() == 0 ==> r@.len() == 0,
{
    s.trim_start()
}

/// Reads a `Name: value` header: the name before the first `:` and the
/// value after it, both without leading whitespace.
pub fn header(s: &str) -> (r: Result<(String, String), String>)
    ensures
        match r {
            Ok(p) => s@.len() >= 3 && (match find_char_from(s@, ':', 0) {
                Some(i) => i > 0 && p.0@ == trim_start_of(s@.subrange(0, i)) && p.1@
                    == trim_start_of(s@.subrange(i + 1, s@.len() as int)),
                None => false,
            }),
            Err(m) => (s@.len() < 3 && m@ == "must be at least 3 characters long"@) || (
            s@.len() >= 3 && find_char_from(s@, ':', 0) is None && m@
                == "separator symbol : not found in the header expression"@) || (s@.len()
                >= 3 && find_char_from(s@, ':', 0) == Some(0int) && m@
                == "empty header name"@),
        },
{
    let cs = chars_of(s);
    if cs.len() < 3 {
        return Err(String::from_str("must be at least 3 characters long"));
    }
    match crate::text::find_char(&cs, ':', 0) {
        None => Err(
            String::from_str("separator symbol : not found in the header expression"),
        ),
        Some(i) => {
            proof {
                lemma_find_char_range(s@, ':', 0);
            }
            if i == 0 {
                return Err(String::from_str("empty header name"));
            }
            let left = sub_chars(&cs, 0, i);
            let right = sub_chars(&cs, i + 1, cs.len());
            let ls = string_of(&left);
            let rs = string_of(&right);
            let lt = trim_start_str(ls.as_str()).to_owned();
            let rt = trim_start_str(rs.as_str()).to_owned();
            Ok((lt, rt))
        },
    }
}

} // verus!
