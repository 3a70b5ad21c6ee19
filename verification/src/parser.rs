//! The executable parser: reads document text into a `Node` tree and is
//! proved to return exactly what the grammar specification describes.

use vstd::prelude::*;
use crate::node::{Node, NodeV, Style, node_v, nodes_v, entries_v, map_has, lemma_entries_v};
use crate::lines::{Line, LineV, line_views, split_lines, split_lines_exec,
    lemma_find_char_range};
use crate::text::{find_char, find_sep, find_char_from, find_sep_from, leading_spaces,
    trimmed_end, sub_chars, chars_of, string_of};
use crate::parse_spec::{ParseError, is_item_line, trimmed, count_deeper, lemma_count_deeper,
    p_flow_elem, p_flow_elems, p_inline, p_block, p_nested, entry_parts, p_entries, p_items,
    p_doc};

verus! {

/// The window of line views `[lo, hi)`.
pub open spec fn win(lines: Seq<Line>, lo: int, hi: int) -> Seq<LineV> {
    line_views(lines).subrange(lo, hi)
}

fn is_item_line_exec(t: &Vec<char>) -> (r: bool)
    ensures
        r == is_item_line(t@),
{
    if t.len() == 1 && t[0] == '-' {
        proof {
            assert(t@ =~= seq!['-']);
        }
        true
    } else if t.len() >= 2 && t[0] == '-' && t[1] == ' ' {
        true
    } else {
        proof {
            if t@ == seq!['-'] {
                assert(t@.len() == 1 && t@[0] == '-');
            }
        }
        false
    }
}

/// `v` without leading and trailing spaces.
fn trimmed_exec(v: &Vec<char>) -> (r: Vec<char>)
    ensures
        r@ == trimmed(v@),
{
    let lo = leading_spaces(v);
    let hi = trimmed_end(v);
    if hi <= lo {
        let r: Vec<char> = Vec::new();
        proof {
            assert(r@ =~= trimmed(v@));
        }
        r
    } else {
        sub_chars(v, lo, hi)
    }
}

/// How many lines of `[lo, hi)` at the front lie deeper than `ind`.
fn count_deeper_exec(lines: &Vec<Line>, lo: usize, hi: usize, ind: usize) -> (r: usize)
    requires
        lo <= hi <= lines@.len(),
    ensures
        r == count_deeper(win(lines@, lo as int, hi as int), ind as int),
        lo + r <= hi,
{
    let ghost w = win(lines@, lo as int, hi as int);
    let mut k = lo;
    loop
        invariant
            lo <= k <= hi <= lines@.len(),
            w == win(lines@, lo as int, hi as int),
            count_deeper(w, ind as int) == (k - lo) + count_deeper(
                win(lines@, k as int, hi as int),
                ind as int,
            ),
        ensures
            count_deeper(w, ind as int) == k - lo,
            lo <= k <= hi,
        decreases hi - k,
    {
        if k >= hi {
            proof {
                assert(win(lines@, k as int, hi as int) =~= Seq::<LineV>::empty());
            }
            break;
        }
        if lines[k].indent <= ind {
            proof {
                assert(win(lines@, k as int, hi as int)[0] == lines@[k as int].view());
            }
            break;
        }
        proof {
            let wk = win(lines@, k as int, hi as int);
            assert(wk[0] == lines@[k as int].view());
            assert(wk.drop_first() =~= win(lines@, k + 1, hi as int));
        }
        k = k + 1;
    }
    proof {
        lemma_count_deeper(w, ind as int);
    }
    k - lo
}

/// Whether any flow-syntax character occurs in `e`.
fn has_flow_char(e: &Vec<char>) -> (r: bool)
    ensures
        r == exists|i: int|
            0 <= i < e@.len() && (e@[i] == '[' || e@[i] == ']' || e@[i] == '{' || e@[i]
                == '}'),
{
    let mut i: usize = 0;
    while i < e.len()
        invariant
            0 <= i <= e@.len(),
            forall|j: int|
                0 <= j < i ==> !(e@[j] == '[' || e@[j] == ']' || e@[j] == '{' || e@[j]
                    == '}'),
        decreases e@.len() - i,
    {
        let c = e[i];
        if c == '[' || c == ']' || c == '{' || c == '}' {
            return true;
        }
        i = i + 1;
    }
    false
}

/// One element of a flow sequence, already trimmed.
fn flow_elem_exec(e: &Vec<char>) -> (r: Result<Node, ()>)
    ensures
        match r {
            Ok(n) => p_flow_elem(e@) == Ok::<NodeV, ()>(node_v(n)),
            Err(_) => p_flow_elem(e@) is Err,
        },
{
    if e.len() == 0 {
        return Err(());
    }
    let c0 = e[0];
    if c0 == '"' || c0 == '\'' {
        if e.len() < 2 || e[e.len() - 1] != c0 {
            return Err(());
        }
        let mid = sub_chars(e, 1, e.len() - 1);
        let mut i: usize = 0;
        while i < mid.len()
            invariant
                0 <= i <= mid@.len(),
                e@.len() >= 2,
                c0 == '"' || c0 == '\'',
                e@[0] == c0,
                e@[e@.len() - 1] == c0,
                mid@ == e@.subrange(1, e@.len() - 1),
                forall|j: int| 0 <= j < i ==> mid@[j] != c0,
            decreases mid@.len() - i,
        {
            if mid[i] == c0 {
                proof {
                    assert(mid@.len() == e@.len() - 2);
                    assert(1 <= i + 1 < e@.len() - 1);
                    assert(mid@[i as int] == e@.subrange(1, e@.len() - 1)[i as int]);
                    assert(e@[i + 1] == c0);
                    assert(p_flow_elem(e@) is Err);
                }
                return Err(());
            }
            i = i + 1;
        }
        proof {
            assert forall|j: int| 1 <= j < e@.len() - 1 implies e@[j] != c0 by {
                assert(mid@[j - 1] == e@.subrange(1, e@.len() - 1)[j - 1]);
            }
        }
        let st = if c0 == '"' {
            Style::Double
        } else {
            Style::Single
        };
        return Ok(Node::Scalar(string_of(&mid), st));
    }
    if has_flow_char(e) {
        return Err(());
    }
    Ok(Node::Scalar(string_of(e), Style::Plain))
}

/// The elements of a flow sequence body, from `from` on.
fn flow_elems_exec(inner: &Vec<char>, from: usize) -> (r: Result<Vec<Node>, ()>)
    requires
        from <= inner@.len(),
    ensures
        match r {
            Ok(ns) => p_flow_elems(inner@, from as int) == Ok::<Seq<NodeV>, ()>(
                nodes_v(ns@),
            ),
            Err(_) => p_flow_elems(inner@, from as int) is Err,
        },
    decreases inner@.len() - from,
{
    let n = inner.len();
    match find_char(inner, ',', from) {
        Some(i) => {
            proof {
                lemma_find_char_range(inner@, ',', from as int);
                assert(i < n);
            }
            let seg = sub_chars(inner, from, i);
            let elem = trimmed_exec(&seg);
            match flow_elem_exec(&elem) {
                Err(_) => Err(()),
                Ok(n) => match flow_elems_exec(inner, i + 1) {
                    Err(_) => Err(()),
                    Ok(mut ns) => {
                        let ghost tailv = ns@;
                        ns.insert(0, n);
                        proof {
                            assert(ns@ =~= seq![n] + tailv);
                            assert(nodes_v(seq![n] + tailv) =~= seq![node_v(n)] + nodes_v(
                                tailv,
                            )) by {
                                assert((seq![n] + tailv).drop_first() =~= tailv);
                            }
                        }
                        Ok(ns)
                    },
                },
            }
        },
        None => {
            let seg = sub_chars(inner, from, inner.len());
            let elem = trimmed_exec(&seg);
            match flow_elem_exec(&elem) {
                Err(_) => Err(()),
                Ok(n) => {
                    let mut ns: Vec<Node> = Vec::new();
                    ns.push(n);
                    proof {
                        crate::node::lemma_nodes_v(ns@);
                        assert(nodes_v(ns@) =~= seq![node_v(n)]);
                    }
                    Ok(ns)
                },
            }
        },
    }
}

/// An inline value.
fn inline_exec(rest: &Vec<char>) -> (r: Result<Node, ()>)
    ensures
        match r {
            Ok(n) => p_inline(rest@) == Ok::<NodeV, ()>(node_v(n)),
            Err(_) => p_inline(rest@) is Err,
        },
{
    if rest.len() == 0 {
        return Err(());
    }
    let c0 = rest[0];
    if c0 == '[' {
        if rest[rest.len() - 1] != ']' || rest.len() < 2 {
            return Err(());
        }
        let inner = sub_chars(rest, 1, rest.len() - 1);
        let t = trimmed_exec(&inner);
        if t.len() == 0 {
            let ns: Vec<Node> = Vec::new();
            proof {
                assert(nodes_v(ns@) =~= Seq::<NodeV>::empty());
            }
            return Ok(Node::Sequence(ns));
        }
        match flow_elems_exec(&inner, 0) {
            Err(_) => Err(()),
            Ok(ns) => Ok(Node::Sequence(ns)),
        }
    } else if c0 == '{' {
        if rest[rest.len() - 1] != '}' || rest.len() < 2 {
            return Err(());
        }
        let inner = sub_chars(rest, 1, rest.len() - 1);
        let t = trimmed_exec(&inner);
        if t.len() == 0 {
            let es: Vec<(String, Node)> = Vec::new();
            proof {
                assert(entries_v(es@) =~= Seq::<(Seq<char>, NodeV)>::empty());
            }
            Ok(Node::Mapping(es))
        } else {
            Err(())
        }
    } else {
        flow_elem_exec(rest)
    }
}

/// Splits an entry line into its key and trimmed inline rest.
fn entry_parts_exec(t: &Vec<char>) -> (r: Option<(Vec<char>, Vec<char>)>)
    ensures
        match r {
            Some(kr) => entry_parts(t@) == Some((kr.0@, kr.1@)),
            None => entry_parts(t@) is None,
        },
{
    match find_sep(t, 0) {
        Some(i) => {
            if i == 0 {
                return None;
            }
            let n = t.len();
            proof {
                crate::parser::lemma_find_sep_bound(t@, 0, i as int);
                assert(i + 2 <= n);
            }
            let key = sub_chars(t, 0, i);
            let seg = sub_chars(t, i + 2, n);
            let rest = trimmed_exec(&seg);
            Some((key, rest))
        },
        None => {
            if t.len() >= 2 && t[t.len() - 1] == ':' {
                let key = sub_chars(t, 0, t.len() - 1);
                let rest: Vec<char> = Vec::new();
                proof {
                    assert(rest@ =~= Seq::<char>::empty());
                }
                Some((key, rest))
            } else {
                None
            }
        },
    }
}

/// A found `": "` separator lies inside the text.
pub proof fn lemma_find_sep_bound(s: Seq<char>, i: int, k: int)
    requires
        0 <= i,
        find_sep_from(s, i) == Some(k),
    ensures
        i <= k && k + 1 < s.len(),
    decreases s.len() - i,
{
    if !(i + 1 >= s.len()) && !(s[i] == ':' && s[i + 1] == ' ') {
        lemma_find_sep_bound(s, i + 1, k);
    }
}

/// A block within the line window `[lo, hi)`.
fn parse_block_exec(lines: &Vec<Line>, lo: usize, hi: usize, ind: usize) -> (r: Result<
    Node,
    (),
>)
    requires
        lo <= hi <= lines@.len(),
    ensures
        match r {
            Ok(n) => p_block(win(lines@, lo as int, hi as int), ind as int) == Ok::<
                NodeV,
                (),
            >(node_v(n)),
            Err(_) => p_block(win(lines@, lo as int, hi as int), ind as int) is Err,
        },
    decreases hi - lo, 1int,
{
    let ghost w = win(lines@, lo as int, hi as int);
    if lo >= hi {
        return Err(());
    }
    proof {
        assert(w[0] == lines@[lo as int].view());
    }
    if is_item_line_exec(&lines[lo].content) {
        match parse_items_exec(lines, lo, hi, ind) {
            Ok(items) => Ok(Node::Sequence(items)),
            Err(_) => Err(()),
        }
    } else {
        match parse_entries_exec(lines, lo, hi, ind) {
            Ok(es) => Ok(Node::Mapping(es)),
            Err(_) => Err(()),
        }
    }
}

/// The nested value beginning at `lo`: empty means an empty plain scalar.
fn parse_nested_exec(lines: &Vec<Line>, lo: usize, hi: usize) -> (r: Result<Node, ()>)
    requires
        lo <= hi <= lines@.len(),
    ensures
        match r {
            Ok(n) => p_nested(win(lines@, lo as int, hi as int)) == Ok::<NodeV, ()>(
                node_v(n),
            ),
            Err(_) => p_nested(win(lines@, lo as int, hi as int)) is Err,
        },
    decreases hi - lo, 2int,
{
    let ghost w = win(lines@, lo as int, hi as int);
    if lo >= hi {
        let n = Node::Scalar(String::new(), Style::Plain);
        proof {
            assert(w =~= Seq::<LineV>::empty());
        }
        Ok(n)
    } else {
        proof {
            assert(w[0] == lines@[lo as int].view());
        }
        parse_block_exec(lines, lo, hi, lines[lo].indent)
    }
}

/// Whether `es` already carries the key `k`.
fn entries_has_key(es: &Vec<(String, Node)>, k: &Vec<char>) -> (r: bool)
    ensures
        r == map_has(entries_v(es@), k@),
{
    proof {
        lemma_entries_v(es@);
    }
    let mut i: usize = 0;
    while i < es.len()
        invariant
            0 <= i <= es@.len(),
            entries_v(es@).len() == es@.len(),
            forall|j: int|
                0 <= j < es@.len() ==> #[trigger] entries_v(es@)[j] == (
                    es@[j].0@,
                    node_v(es@[j].1),
                ),
            forall|j: int| 0 <= j < i ==> entries_v(es@)[j].0 != k@,
        decreases es@.len() - i,
    {
        let ks = string_of(k);
        if es[i].0 == ks {
            proof {
                assert(entries_v(es@)[i as int].0 == k@);
                assert(map_has(entries_v(es@), k@));
            }
            return true;
        }
        i = i + 1;
    }
    proof {
        if map_has(entries_v(es@), k@) {
            let j = choose|j: int|
                0 <= j < entries_v(es@).len() && entries_v(es@)[j].0 == k@;
            assert(entries_v(es@)[j].0 != k@);
        }
    }
    false
}

/// The entries of a block mapping in `[lo, hi)` at indent `ind`.
fn parse_entries_exec(lines: &Vec<Line>, lo: usize, hi: usize, ind: usize) -> (r: Result<
    Vec<(String, Node)>,
    (),
>)
    requires
        lo <= hi <= lines@.len(),
    ensures
        match r {
            Ok(es) => p_entries(win(lines@, lo as int, hi as int), ind as int) == Ok::<
                Seq<(Seq<char>, NodeV)>,
                (),
            >(entries_v(es@)),
            Err(_) => p_entries(win(lines@, lo as int, hi as int), ind as int) is Err,
        },
    decreases hi - lo, 0int,
{
    let ghost w = win(lines@, lo as int, hi as int);
    if lo >= hi {
        let es: Vec<(String, Node)> = Vec::new();
        proof {
            assert(w =~= Seq::<LineV>::empty());
            assert(entries_v(es@) =~= Seq::<(Seq<char>, NodeV)>::empty());
        }
        return Ok(es);
    }
    proof {
        assert(w[0] == lines@[lo as int].view());
    }
    if lines[lo].indent != ind {
        return Err(());
    }
    if is_item_line_exec(&lines[lo].content) {
        return Err(());
    }
    match entry_parts_exec(&lines[lo].content) {
        None => Err(()),
        Some((key, rest)) => {
            let c = count_deeper_exec(lines, lo + 1, hi, ind);
            proof {
                assert(w.subrange(1, w.len() as int) =~= win(lines@, lo + 1, hi as int));
            }
            let val: Node;
            if rest.len() == 0 {
                proof {
                    assert(w.subrange(1, 1 + c) =~= win(lines@, lo + 1, lo + 1 + c));
                }
                match parse_nested_exec(lines, lo + 1, lo + 1 + c) {
                    Ok(v) => {
                        val = v;
                    },
                    Err(_) => {
                        return Err(());
                    },
                }
            } else if c != 0 {
                return Err(());
            } else {
                match inline_exec(&rest) {
                    Ok(v) => {
                        val = v;
                    },
                    Err(_) => {
                        return Err(());
                    },
                }
            }
            proof {
                assert(w.subrange(1 + c, w.len() as int) =~= win(
                    lines@,
                    lo + 1 + c,
                    hi as int,
                ));
            }
            match parse_entries_exec(lines, lo + 1 + c, hi, ind) {
                Err(_) => Err(()),
                Ok(mut es) => {
                    if entries_has_key(&es, &key) {
                        return Err(());
                    }
                    let ghost tail = es@;
                    let ks = string_of(&key);
                    es.insert(0, (ks, val));
                    proof {
                        assert(es@ =~= seq![(ks, val)] + tail);
                        assert(entries_v(seq![(ks, val)] + tail) =~= seq![
                            (key@, node_v(val)),
                        ] + entries_v(tail)) by {
                            assert((seq![(ks, val)] + tail).drop_first() =~= tail);
                        }
                    }
                    Ok(es)
                },
            }
        },
    }
}

/// The items of a block sequence in `[lo, hi)` at indent `ind`.
fn parse_items_exec(lines: &Vec<Line>, lo: usize, hi: usize, ind: usize) -> (r: Result<
    Vec<Node>,
    (),
>)
    requires
        lo <= hi <= lines@.len(),
    ensures
        match r {
            Ok(items) => p_items(win(lines@, lo as int, hi as int), ind as int) == Ok::<
                Seq<NodeV>,
                (),
            >(nodes_v(items@)),
            Err(_) => p_items(win(lines@, lo as int, hi as int), ind as int) is Err,
        },
    decreases hi - lo, 0int,
{
    let ghost w = win(lines@, lo as int, hi as int);
    if lo >= hi {
        let items: Vec<Node> = Vec::new();
        proof {
            assert(w =~= Seq::<LineV>::empty());
            assert(nodes_v(items@) =~= Seq::<NodeV>::empty());
        }
        return Ok(items);
    }
    proof {
        assert(w[0] == lines@[lo as int].view());
    }
    if lines[lo].indent != ind {
        return Err(());
    }
    if !is_item_line_exec(&lines[lo].content) {
        return Err(());
    }
    let t = &lines[lo].content;
    let rest: Vec<char>;
    if t.len() == 1 {
        rest = Vec::new();
        proof {
            assert(t@ =~= seq!['-']);
            assert(rest@ =~= Seq::<char>::empty());
        }
    } else {
        let seg = sub_chars(t, 2, t.len());
        rest = trimmed_exec(&seg);
        proof {
            assert(t@ != seq!['-']);
        }
    }
    let c = count_deeper_exec(lines, lo + 1, hi, ind);
    proof {
        assert(w.subrange(1, w.len() as int) =~= win(lines@, lo + 1, hi as int));
    }
    let val: Node;
    if rest.len() == 0 {
        proof {
            assert(w.subrange(1, 1 + c) =~= win(lines@, lo + 1, lo + 1 + c));
        }
        match parse_nested_exec(lines, lo + 1, lo + 1 + c) {
            Ok(v) => {
                val = v;
            },
            Err(_) => {
                return Err(());
            },
        }
    } else if c != 0 {
        return Err(());
    } else {
        match inline_exec(&rest) {
            Ok(v) => {
                val = v;
            },
            Err(_) => {
                return Err(());
            },
        }
    }
    proof {
        assert(w.subrange(1 + c, w.len() as int) =~= win(lines@, lo + 1 + c, hi as int));
    }
    match parse_items_exec(lines, lo + 1 + c, hi, ind) {
        Err(_) => Err(()),
        Ok(mut items) => {
            let ghost tail = items@;
            items.insert(0, val);
            proof {
                assert(items@ =~= seq![val] + tail);
                assert(nodes_v(seq![val] + tail) =~= seq![node_v(val)] + nodes_v(tail)) by {
                    assert((seq![val] + tail).drop_first() =~= tail);
                }
            }
            Ok(items)
        },
    }
}

/// Parses a whole document. The result is exactly what the grammar
/// specification `p_doc` assigns to the text.
pub fn parse_doc(text: &str) -> (r: Result<Node, ParseError>)
    ensures
        match r {
            Ok(n) => p_doc(text@) == Ok::<NodeV, ParseError>(node_v(n)) && n is Mapping,
            Err(e) => p_doc(text@) == Err::<NodeV, ParseError>(e),
        },
{
    let cs = chars_of(text);
    let lines = split_lines_exec(&cs);
    if lines.len() == 0 {
        return Err(ParseError::NotMapping);
    }
    proof {
        assert(win(lines@, 0, lines@.len() as int) =~= line_views(lines@));
        assert(line_views(lines@)[0] == lines@[0].view());
    }
    match parse_block_exec(&lines, 0, lines.len(), lines[0].indent) {
        Ok(n) => match n {
            Node::Mapping(es) => Ok(Node::Mapping(es)),
            _ => Err(ParseError::NotMapping),
        },
        Err(_) => Err(ParseError::Malformed),
    }
}

} // verus!
