//! Specification of the document grammar: how a sequence of logical
//! lines is read as a tree of scalars, sequences and mappings. The
//! executable parser is proved to return exactly what these functions
//! describe.

use vstd::prelude::*;
use crate::node::{NodeV, Style, map_has};
use crate::lines::{LineV, split_lines};
use crate::text::{leading_from, trail_before, find_sep_from, find_char_from};

verus! {

/// Why a document was rejected.
#[derive(Clone, Copy, PartialEq, Eq, Structural, Debug)]
pub enum ParseError {
    /// The text is not a mapping at its top level (an empty document, or a
    /// top-level sequence).
    NotMapping,
    /// The text does not follow the grammar (bad indentation, unterminated
    /// quote, duplicate key, ...).
    Malformed,
}

/// A line that begins a sequence item: `-` alone or `- ` followed by more.
pub open spec fn is_item_line(t: Seq<char>) -> bool {
    t == seq!['-'] || (t.len() >= 2 && t[0] == '-' && t[1] == ' ')
}

/// `s` without leading and trailing spaces.
pub open spec fn trimmed(s: Seq<char>) -> Seq<char> {
    let lo = leading_from(s, 0);
    let hi = trail_before(s, s.len() as int);
    if hi <= lo {
        Seq::empty()
    } else {
        s.subrange(lo, hi)
    }
}

/// How many lines at the front of `ls` lie deeper than `ind`.
pub open spec fn count_deeper(ls: Seq<LineV>, ind: int) -> int
    decreases ls.len(),
{
    if ls.len() == 0 || ls[0].ind <= ind {
        0
    } else {
        1 + count_deeper(ls.drop_first(), ind)
    }
}

pub proof fn lemma_count_deeper(ls: Seq<LineV>, ind: int)
    ensures
        0 <= count_deeper(ls, ind) <= ls.len(),
        forall|i: int| 0 <= i < count_deeper(ls, ind) ==> ls[i].ind > ind,
        count_deeper(ls, ind) < ls.len() ==> ls[count_deeper(ls, ind)].ind <= ind,
    decreases ls.len(),
{
    if ls.len() > 0 && ls[0].ind > ind {
        lemma_count_deeper(ls.drop_first(), ind);
        let c = count_deeper(ls, ind);
        assert forall|i: int| 0 <= i < c implies ls[i].ind > ind by {
            if i > 0 {
                assert(ls.drop_first()[i - 1] == ls[i]);
            }
        }
        if c < ls.len() {
            assert(ls.drop_first()[c - 1] == ls[c]);
        }
    }
}

/// One element of a flow sequence, already trimmed.
pub open spec fn p_flow_elem(e: Seq<char>) -> Result<NodeV, ()> {
    if e.len() == 0 {
        Err(())
    } else if e[0] == '"' {
        if e.len() >= 2 && e[e.len() - 1] == '"' && (forall|i: int|
            1 <= i < e.len() - 1 ==> e[i] != '"') {
            Ok(NodeV::Scalar(e.subrange(1, e.len() - 1), Style::Double))
        } else {
            Err(())
        }
    } else if e[0] == '\'' {
        if e.len() >= 2 && e[e.len() - 1] == '\'' && (forall|i: int|
            1 <= i < e.len() - 1 ==> e[i] != '\'') {
            Ok(NodeV::Scalar(e.subrange(1, e.len() - 1), Style::Single))
        } else {
            Err(())
        }
    } else if exists|i: int|
        0 <= i < e.len() && (e[i] == '[' || e[i] == ']' || e[i] == '{' || e[i] == '}') {
        Err(())
    } else {
        Ok(NodeV::Scalar(e, Style::Plain))
    }
}

/// The elements of a flow sequence body, from position `from` on.
pub open spec fn p_flow_elems(inner: Seq<char>, from: int) -> Result<Seq<NodeV>, ()>
    decreases inner.len() - from,
    via p_flow_elems_dec
{
    if from < 0 || from > inner.len() {
        Err(())
    } else {
        match find_char_from(inner, ',', from) {
            Some(i) => match p_flow_elem(trimmed(inner.subrange(from, i))) {
                Ok(v) => match p_flow_elems(inner, i + 1) {
                    Ok(vs) => Ok(seq![v] + vs),
                    Err(e) => Err(e),
                },
                Err(e) => Err(e),
            },
            None => match p_flow_elem(trimmed(inner.subrange(from, inner.len() as int))) {
                Ok(v) => Ok(seq![v]),
                Err(e) => Err(e),
            },
        }
    }
}

#[via_fn]
proof fn p_flow_elems_dec(inner: Seq<char>, from: int) {
    if 0 <= from && from <= inner.len() {
        crate::lines::lemma_find_char_range(inner, ',', from);
    }
}

/// An inline value: a quoted or plain scalar, an empty or one-line flow
/// sequence, or an empty flow mapping. `rest` is trimmed and non-empty.
pub open spec fn p_inline(rest: Seq<char>) -> Result<NodeV, ()> {
    if rest.len() == 0 {
        Err(())
    } else if rest[0] == '[' {
        if rest[rest.len() - 1] == ']' && rest.len() >= 2 {
            let inner = rest.subrange(1, rest.len() - 1);
            if trimmed(inner).len() == 0 {
                Ok(NodeV::Sequence(Seq::empty()))
            } else {
                match p_flow_elems(inner, 0) {
                    Ok(vs) => Ok(NodeV::Sequence(vs)),
                    Err(e) => Err(e),
                }
            }
        } else {
            Err(())
        }
    } else if rest[0] == '{' {
        if rest[rest.len() - 1] == '}' && rest.len() >= 2 && trimmed(
            rest.subrange(1, rest.len() - 1),
        ).len() == 0 {
            Ok(NodeV::Mapping(Seq::empty()))
        } else {
            Err(())
        }
    } else {
        p_flow_elem(rest)
    }
}

/// A block: a sequence of items or a mapping of entries, all of `ls`.
pub open spec fn p_block(ls: Seq<LineV>, ind: int) -> Result<NodeV, ()>
    decreases ls.len(), 1int,
{
    if ls.len() == 0 {
        Err(())
    } else if is_item_line(ls[0].text) {
        match p_items(ls, ind) {
            Ok(items) => Ok(NodeV::Sequence(items)),
            Err(e) => Err(e),
        }
    } else {
        match p_entries(ls, ind) {
            Ok(es) => Ok(NodeV::Mapping(es)),
            Err(e) => Err(e),
        }
    }
}

/// The value written through nested lines: nothing means an empty plain
/// scalar, otherwise a block at the nested indent.
pub open spec fn p_nested(nested: Seq<LineV>) -> Result<NodeV, ()>
    decreases nested.len(), 2int,
{
    if nested.len() == 0 {
        Ok(NodeV::Scalar(Seq::empty(), Style::Plain))
    } else {
        p_block(nested, nested[0].ind)
    }
}

/// Splits an entry line into its key and inline rest (trimmed).
/// Returns `None` when the line is not an entry line.
pub open spec fn entry_parts(t: Seq<char>) -> Option<(Seq<char>, Seq<char>)> {
    match find_sep_from(t, 0) {
        Some(i) => {
            if i == 0 {
                None
            } else {
                Some((t.subrange(0, i), trimmed(t.subrange(i + 2, t.len() as int))))
            }
        },
        None => {
            if t.len() >= 2 && t[t.len() - 1] == ':' {
                Some((t.subrange(0, t.len() - 1), Seq::empty()))
            } else {
                None
            }
        },
    }
}

/// The entries of a block mapping at indent `ind`.
pub open spec fn p_entries(ls: Seq<LineV>, ind: int) -> Result<
    Seq<(Seq<char>, NodeV)>,
    (),
>
    decreases ls.len(), 0int,
    via p_entries_dec
{
    if ls.len() == 0 {
        Ok(Seq::empty())
    } else if ls[0].ind != ind {
        Err(())
    } else if is_item_line(ls[0].text) {
        Err(())
    } else {
        match entry_parts(ls[0].text) {
            None => Err(()),
            Some((key, rest)) => {
                let c = count_deeper(ls.subrange(1, ls.len() as int), ind);
                let nested = ls.subrange(1, 1 + c);
                let tail = ls.subrange(1 + c, ls.len() as int);
                let val = if rest.len() == 0 {
                    p_nested(nested)
                } else if c != 0 {
                    Err(())
                } else {
                    p_inline(rest)
                };
                match val {
                    Err(e) => Err(e),
                    Ok(v) => match p_entries(tail, ind) {
                        Err(e) => Err(e),
                        Ok(es) => {
                            if map_has(es, key) {
                                Err(())
                            } else {
                                Ok(seq![(key, v)] + es)
                            }
                        },
                    },
                }
            },
        }
    }
}

#[via_fn]
proof fn p_entries_dec(ls: Seq<LineV>, ind: int) {
    if ls.len() > 0 {
        lemma_count_deeper(ls.subrange(1, ls.len() as int), ind);
    }
}

/// The items of a block sequence at indent `ind`.
pub open spec fn p_items(ls: Seq<LineV>, ind: int) -> Result<Seq<NodeV>, ()>
    decreases ls.len(), 0int,
    via p_items_dec
{
    if ls.len() == 0 {
        Ok(Seq::empty())
    } else if ls[0].ind != ind {
        Err(())
    } else if !is_item_line(ls[0].text) {
        Err(())
    } else {
        let t = ls[0].text;
        let rest = if t == seq!['-'] {
            Seq::<char>::empty()
        } else {
            trimmed(t.subrange(2, t.len() as int))
        };
        let c = count_deeper(ls.subrange(1, ls.len() as int), ind);
        let nested = ls.subrange(1, 1 + c);
        let tail = ls.subrange(1 + c, ls.len() as int);
        let val = if rest.len() == 0 {
            p_nested(nested)
        } else if c != 0 {
            Err(())
        } else {
            p_inline(rest)
        };
        match val {
            Err(e) => Err(e),
            Ok(v) => match p_items(tail, ind) {
                Err(e) => Err(e),
                Ok(items) => Ok(seq![v] + items),
            },
        }
    }
}

#[via_fn]
proof fn p_items_dec(ls: Seq<LineV>, ind: int) {
    if ls.len() > 0 {
        lemma_count_deeper(ls.subrange(1, ls.len() as int), ind);
    }
}

/// A whole document: its logical lines must form one block mapping.
pub open spec fn p_doc(text: Seq<char>) -> Result<NodeV, ParseError> {
    let ls = split_lines(text);
    if ls.len() == 0 {
        Err(ParseError::NotMapping)
    } else {
        match p_block(ls, ls[0].ind) {
            Ok(NodeV::Mapping(es)) => Ok(NodeV::Mapping(es)),
            Ok(_) => Err(ParseError::NotMapping),
            Err(_) => Err(ParseError::Malformed),
        }
    }
}

} // verus!
