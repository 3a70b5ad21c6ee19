//! Serialization: writing a document tree back to text. Mapping key
//! order is kept and each scalar is re-emitted in its original quoting
//! style. The writer refuses trees nested deeper than the emitter's
//! recursion limit.

use vstd::prelude::*;
use crate::node::{Node, NodeV, Style, node_v, nodes_v, entries_v, lemma_nodes_v,
    lemma_entries_v};
use crate::lines::{Line, LineV, line_views, join_lines, join_lines_exec};
use crate::text::{string_of, push_chars, push_str_chars};

verus! {

/// Deepest tree the writer accepts (containers within containers).
pub const MAX_EMIT_DEPTH: usize = 128;

/// Nesting depth of a tree: scalars are flat, containers add one level.
pub open spec fn depth_v(v: NodeV) -> int
    decreases v,
{
    match v {
        NodeV::Scalar(_, _) => 0,
        NodeV::Sequence(items) => 1 + depth_list(items),
        NodeV::Mapping(es) => 1 + depth_entries(es),
    }
}

pub open spec fn depth_list(items: Seq<NodeV>) -> int
    decreases items,
{
    if items.len() == 0 {
        0
    } else {
        let d0 = depth_v(items[0]);
        let dr = depth_list(items.drop_first());
        if d0 >= dr {
            d0
        } else {
            dr
        }
    }
}

pub open spec fn depth_entries(es: Seq<(Seq<char>, NodeV)>) -> int
    decreases es,
{
    if es.len() == 0 {
        0
    } else {
        let d0 = depth_v(es[0].1);
        let dr = depth_entries(es.drop_first());
        if d0 >= dr {
            d0
        } else {
            dr
        }
    }
}

pub proof fn lemma_depth_list_nonneg(items: Seq<NodeV>)
    ensures
        depth_list(items) >= 0,
        forall|i: int| 0 <= i < items.len() ==> depth_v(#[trigger] items[i]) <= depth_list(
            items,
        ),
    decreases items,
{
    if items.len() > 0 {
        lemma_depth_list_nonneg(items.drop_first());
        assert forall|i: int|
            0 <= i < items.len() implies depth_v(#[trigger] items[i]) <= depth_list(
            items,
        ) by {
            if i > 0 {
                assert(items.drop_first()[i - 1] == items[i]);
            }
        }
    }
}

pub proof fn lemma_depth_entries_nonneg(es: Seq<(Seq<char>, NodeV)>)
    ensures
        depth_entries(es) >= 0,
        forall|i: int| 0 <= i < es.len() ==> depth_v(#[trigger] es[i].1) <= depth_entries(
            es,
        ),
    decreases es,
{
    if es.len() > 0 {
        lemma_depth_entries_nonneg(es.drop_first());
        assert forall|i: int|
            0 <= i < es.len() implies depth_v(#[trigger] es[i].1) <= depth_entries(es) by {
            if i > 0 {
                assert(es.drop_first()[i - 1] == es[i]);
            }
        }
    }
}

/// Whether the tree is nested no deeper than `b`.
pub fn node_fits(n: &Node, b: usize) -> (r: bool)
    ensures
        r == (depth_v(node_v(*n)) <= b),
    decreases *n, 1int,
{
    match n {
        Node::Scalar(_, _) => true,
        Node::Sequence(items) => {
            if b == 0 {
                proof {
                    lemma_depth_list_nonneg(nodes_v(items@));
                }
                false
            } else {
                nodes_fit(items, b - 1)
            }
        },
        Node::Mapping(es) => {
            if b == 0 {
                proof {
                    lemma_depth_entries_nonneg(entries_v(es@));
                }
                false
            } else {
                entries_fit(es, b - 1)
            }
        },
    }
}

fn nodes_fit(items: &Vec<Node>, b: usize) -> (r: bool)
    ensures
        r == (depth_list(nodes_v(items@)) <= b),
    decreases items@, 0int,
{
    proof {
        lemma_nodes_v(items@);
        lemma_depth_list_nonneg(nodes_v(items@));
    }
    let mut i: usize = 0;
    while i < items.len()
        invariant
            0 <= i <= items@.len(),
            nodes_v(items@).len() == items@.len(),
            forall|j: int| 0 <= j < items@.len() ==> nodes_v(items@)[j] == node_v(
                #[trigger] items@[j],
            ),
            forall|j: int| 0 <= j < i ==> depth_v(nodes_v(items@)[j]) <= b,
        decreases items@.len() - i,
    {
        if !node_fits(&items[i], b) {
            proof {
                lemma_depth_list_nonneg(nodes_v(items@));
            }
            return false;
        }
        i = i + 1;
    }
    proof {
        lemma_depth_le(nodes_v(items@), b as int);
    }
    true
}

fn entries_fit(es: &Vec<(String, Node)>, b: usize) -> (r: bool)
    ensures
        r == (depth_entries(entries_v(es@)) <= b),
    decreases es@, 0int,
{
    proof {
        lemma_entries_v(es@);
        lemma_depth_entries_nonneg(entries_v(es@));
    }
    let mut i: usize = 0;
    while i < es.len()
        invariant
            0 <= i <= es@.len(),
            entries_v(es@).len() == es@.len(),
            forall|j: int| 0 <= j < es@.len() ==> entries_v(es@)[j] == (
                es@[j].0@,
                node_v(#[trigger] es@[j].1),
            ),
            forall|j: int| 0 <= j < i ==> depth_v(entries_v(es@)[j].1) <= b,
        decreases es@.len() - i,
    {
        if !node_fits(&es[i].1, b) {
            proof {
                lemma_depth_entries_nonneg(entries_v(es@));
                assert(entries_v(es@)[i as int] == (
                    es@[i as int].0@,
                    node_v(es@[i as int].1),
                ));
                assert(depth_v(entries_v(es@)[i as int].1) > b);
            }
            return false;
        }
        i = i + 1;
    }
    proof {
        lemma_depth_entries_le(entries_v(es@), b as int);
    }
    true
}

proof fn lemma_depth_le(items: Seq<NodeV>, b: int)
    requires
        forall|j: int| 0 <= j < items.len() ==> depth_v(#[trigger] items[j]) <= b,
        b >= 0,
    ensures
        depth_list(items) <= b,
    decreases items,
{
    if items.len() > 0 {
        assert(depth_v(items[0]) <= b);
        lemma_depth_le(items.drop_first(), b);
    }
}

proof fn lemma_depth_entries_le(es: Seq<(Seq<char>, NodeV)>, b: int)
    requires
        forall|j: int| 0 <= j < es.len() ==> depth_v(#[trigger] es[j].1) <= b,
        b >= 0,
    ensures
        depth_entries(es) <= b,
    decreases es,
{
    if es.len() > 0 {
        assert(depth_v(es[0].1) <= b);
        lemma_depth_entries_le(es.drop_first(), b);
    }
}

/// The written form of a scalar.
pub open spec fn render_scalar(t: Seq<char>, st: Style) -> Seq<char> {
    match st {
        Style::Plain => t,
        Style::Single => seq!['\''] + t + seq!['\''],
        Style::Double => seq!['"'] + t + seq!['"'],
    }
}

/// The inline form of a value, when it is written on its owner's line.
pub open spec fn inline_repr(v: NodeV) -> Option<Seq<char>> {
    match v {
        NodeV::Scalar(t, st) => Some(render_scalar(t, st)),
        NodeV::Sequence(items) => if items.len() == 0 {
            Some(seq!['[', ']'])
        } else {
            None
        },
        NodeV::Mapping(es) => if es.len() == 0 {
            Some(seq!['{', '}'])
        } else {
            None
        },
    }
}

/// Content of a line holding `head` and an inline value.
pub open spec fn head_with(head: Seq<char>, rep: Seq<char>) -> Seq<char> {
    if rep.len() == 0 {
        head
    } else {
        head + seq![' '] + rep
    }
}

/// The lines of a mapping's entries at indent `ind`.
pub open spec fn e_entries(es: Seq<(Seq<char>, NodeV)>, ind: int) -> Seq<LineV>
    decreases es, 1int,
{
    if es.len() == 0 {
        Seq::empty()
    } else {
        let k = es[0].0;
        let v = es[0].1;
        let head = match inline_repr(v) {
            Some(rep) => seq![LineV { ind: ind, text: head_with(k + seq![':'], rep) }],
            None => seq![LineV { ind: ind, text: k + seq![':'] }] + e_block(v, ind + 2),
        };
        head + e_entries(es.drop_first(), ind)
    }
}

/// The lines of a sequence's items at indent `ind`.
pub open spec fn e_items(items: Seq<NodeV>, ind: int) -> Seq<LineV>
    decreases items, 1int,
{
    if items.len() == 0 {
        Seq::empty()
    } else {
        let v = items[0];
        let head = match inline_repr(v) {
            Some(rep) => seq![LineV { ind: ind, text: head_with(seq!['-'], rep) }],
            None => seq![LineV { ind: ind, text: seq!['-'] }] + e_block(v, ind + 2),
        };
        head + e_items(items.drop_first(), ind)
    }
}

/// The lines of a non-empty container at indent `ind`.
pub open spec fn e_block(v: NodeV, ind: int) -> Seq<LineV>
    decreases v, 0int,
{
    match v {
        NodeV::Scalar(_, _) => Seq::empty(),
        NodeV::Sequence(items) => e_items(items, ind),
        NodeV::Mapping(es) => e_entries(es, ind),
    }
}

/// The full text of a document with root entries `es`.
pub open spec fn doc_text(es: Seq<(Seq<char>, NodeV)>) -> Seq<char> {
    join_lines(e_entries(es, 0))
}

/// The inline form of a value, executable side; `None` for non-empty
/// containers.
fn inline_repr_exec(v: &Node) -> (r: Option<Vec<char>>)
    ensures
        match r {
            Some(cs) => inline_repr(node_v(*v)) == Some(cs@),
            None => inline_repr(node_v(*v)) is None,
        },
{
    match v {
        Node::Scalar(t, st) => {
            let mut cs: Vec<char> = Vec::new();
            let q: char;
            let quoted: bool;
            match st {
                Style::Plain => {
                    q = ' ';
                    quoted = false;
                },
                Style::Single => {
                    q = '\'';
                    quoted = true;
                },
                Style::Double => {
                    q = '"';
                    quoted = true;
                },
            }
            if quoted {
                cs.push(q);
            }
            push_str_chars(&mut cs, t);
            if quoted {
                cs.push(q);
            }
            proof {
                assert(cs@ =~= render_scalar(t@, *st));
            }
            Some(cs)
        },
        Node::Sequence(items) => {
            if items.len() == 0 {
                let mut cs: Vec<char> = Vec::new();
                cs.push('[');
                cs.push(']');
                proof {
                    lemma_nodes_v(items@);
                    assert(cs@ =~= seq!['[', ']']);
                }
                Some(cs)
            } else {
                proof {
                    lemma_nodes_v(items@);
                }
                None
            }
        },
        Node::Mapping(es) => {
            if es.len() == 0 {
                let mut cs: Vec<char> = Vec::new();
                cs.push('{');
                cs.push('}');
                proof {
                    lemma_entries_v(es@);
                    assert(cs@ =~= seq!['{', '}']);
                }
                Some(cs)
            } else {
                proof {
                    lemma_entries_v(es@);
                }
                None
            }
        },
    }
}

/// The suffix of entries from `i` on.
proof fn lemma_e_entries_step(evs: Seq<(Seq<char>, NodeV)>, ind: int, i: int)
    requires
        0 <= i < evs.len(),
    ensures
        e_entries(evs.subrange(i, evs.len() as int), ind) == ({
            let k = evs[i].0;
            let v = evs[i].1;
            let head = match inline_repr(v) {
                Some(rep) => seq![LineV { ind: ind, text: head_with(k + seq![':'], rep) }],
                None => seq![LineV { ind: ind, text: k + seq![':'] }] + e_block(v, ind + 2),
            };
            head + e_entries(evs.subrange(i + 1, evs.len() as int), ind)
        }),
{
    let suf = evs.subrange(i, evs.len() as int);
    assert(suf[0] == evs[i]);
    assert(suf.drop_first() =~= evs.subrange(i + 1, evs.len() as int));
}

proof fn lemma_e_items_step(ivs: Seq<NodeV>, ind: int, i: int)
    requires
        0 <= i < ivs.len(),
    ensures
        e_items(ivs.subrange(i, ivs.len() as int), ind) == ({
            let v = ivs[i];
            let head = match inline_repr(v) {
                Some(rep) => seq![LineV { ind: ind, text: head_with(seq!['-'], rep) }],
                None => seq![LineV { ind: ind, text: seq!['-'] }] + e_block(v, ind + 2),
            };
            head + e_items(ivs.subrange(i + 1, ivs.len() as int), ind)
        }),
{
    let suf = ivs.subrange(i, ivs.len() as int);
    assert(suf[0] == ivs[i]);
    assert(suf.drop_first() =~= ivs.subrange(i + 1, ivs.len() as int));
}

proof fn lemma_views_push_line(ls: Seq<Line>, l: Line)
    ensures
        line_views(ls.push(l)) == line_views(ls).push(l.view()),
{
    assert(line_views(ls.push(l)) =~= line_views(ls).push(l.view()));
}

/// Writes the lines of a non-empty container block.
fn emit_block(v: &Node, ind: usize, out: &mut Vec<Line>)
    requires
        ind + 2 * depth_v(node_v(*v)) <= usize::MAX,
    ensures
        line_views(final(out)@) == line_views(old(out)@) + e_block(node_v(*v), ind as int),
    decreases *v, 0int,
{
    match v {
        Node::Scalar(_, _) => {
            proof {
                assert(line_views(out@) =~= line_views(old(out)@) + e_block(
                    node_v(*v),
                    ind as int,
                ));
            }
        },
        Node::Sequence(items) => {
            emit_items(items, ind, out);
        },
        Node::Mapping(es) => {
            emit_entries(es, ind, out);
        },
    }
}

/// Writes the lines of a mapping's entries.
fn emit_entries(es: &Vec<(String, Node)>, ind: usize, out: &mut Vec<Line>)
    requires
        ind + 2 * depth_entries(entries_v(es@)) + 2 <= usize::MAX,
    ensures
        line_views(final(out)@) == line_views(old(out)@) + e_entries(entries_v(es@), ind as int),
    decreases es@, 1int,
{
    let ghost evs = entries_v(es@);
    proof {
        lemma_entries_v(es@);
        lemma_depth_entries_nonneg(evs);
        assert(evs.subrange(0, evs.len() as int) =~= evs);
        assert(line_views(out@) + e_entries(evs, ind as int) =~= line_views(old(out)@)
            + e_entries(evs, ind as int));
    }
    let mut i: usize = 0;
    while i < es.len()
        invariant
            0 <= i <= es@.len(),
            evs == entries_v(es@),
            evs.len() == es@.len(),
            forall|j: int| 0 <= j < es@.len() ==> evs[j] == (
                es@[j].0@,
                node_v(#[trigger] es@[j].1),
            ),
            ind + 2 * depth_entries(evs) + 2 <= usize::MAX,
            forall|j: int| 0 <= j < evs.len() ==> depth_v(#[trigger] evs[j].1)
                <= depth_entries(evs),
            line_views(out@) + e_entries(
                evs.subrange(i as int, evs.len() as int),
                ind as int,
            ) == line_views(old(out)@) + e_entries(evs, ind as int),
        decreases es@.len() - i,
    {
        proof {
            lemma_e_entries_step(evs, ind as int, i as int);
        }
        let ghost out_pre = out@;
        proof {
            assert(evs[i as int] == (es@[i as int].0@, node_v(es@[i as int].1)));
        }
        let mut content: Vec<char> = Vec::new();
        push_str_chars(&mut content, &es[i].0);
        content.push(':');
        proof {
            assert(content@ =~= evs[i as int].0 + seq![':']);
        }
        match inline_repr_exec(&es[i].1) {
            Some(rep) => {
                if rep.len() > 0 {
                    content.push(' ');
                    push_chars(&mut content, &rep);
                    proof {
                        assert(content@ =~= head_with(evs[i as int].0 + seq![':'], rep@));
                    }
                } else {
                    proof {
                        assert(content@ =~= head_with(evs[i as int].0 + seq![':'], rep@));
                    }
                }
                let line = Line { indent: ind, content };
                let ghost lv = line.view();
                out.push(line);
                proof {
                    assert(line_views(out@) =~= line_views(out_pre) + seq![lv]);
                }
            },
            None => {
                let line = Line { indent: ind, content };
                let ghost lv = line.view();
                out.push(line);
                proof {
                    assert(line_views(out@) =~= line_views(out_pre) + seq![lv]);
                }
                proof {
                    let v = evs[i as int].1;
                    assert(inline_repr(v) is None);
                    match v {
                        NodeV::Sequence(its) => {
                            lemma_depth_list_nonneg(its);
                        },
                        NodeV::Mapping(ees) => {
                            lemma_depth_entries_nonneg(ees);
                        },
                        _ => {},
                    }
                    assert(depth_v(v) >= 1);
                }
                emit_block(&es[i].1, ind + 2, out);
                proof {
                    assert(line_views(out@) =~= line_views(out_pre) + (seq![lv] + e_block(
                        evs[i as int].1,
                        ind + 2,
                    )));
                }
            },
        }
        proof {
            assert(line_views(out@) + e_entries(
                evs.subrange(i + 1, evs.len() as int),
                ind as int,
            ) =~= line_views(old(out)@) + e_entries(evs, ind as int));
        }
        i = i + 1;
    }
    proof {
        assert(e_entries(evs.subrange(i as int, evs.len() as int), ind as int)
            =~= Seq::<LineV>::empty());
        assert(line_views(out@) =~= line_views(out@) + Seq::<LineV>::empty());
    }
}

/// Writes the lines of a sequence's items.
fn emit_items(items: &Vec<Node>, ind: usize, out: &mut Vec<Line>)
    requires
        ind + 2 * depth_list(nodes_v(items@)) + 2 <= usize::MAX,
    ensures
        line_views(final(out)@) == line_views(old(out)@) + e_items(nodes_v(items@), ind as int),
    decreases items@, 1int,
{
    let ghost ivs = nodes_v(items@);
    proof {
        lemma_nodes_v(items@);
        lemma_depth_list_nonneg(ivs);
        assert(ivs.subrange(0, ivs.len() as int) =~= ivs);
        assert(line_views(out@) + e_items(ivs, ind as int) =~= line_views(old(out)@)
            + e_items(ivs, ind as int));
    }
    let mut i: usize = 0;
    while i < items.len()
        invariant
            0 <= i <= items@.len(),
            ivs == nodes_v(items@),
            ivs.len() == items@.len(),
            forall|j: int| 0 <= j < items@.len() ==> ivs[j] == node_v(
                #[trigger] items@[j],
            ),
            ind + 2 * depth_list(ivs) + 2 <= usize::MAX,
            forall|j: int| 0 <= j < ivs.len() ==> depth_v(#[trigger] ivs[j]) <= depth_list(
                ivs,
            ),
            line_views(out@) + e_items(ivs.subrange(i as int, ivs.len() as int), ind as int)
                == line_views(old(out)@) + e_items(ivs, ind as int),
        decreases items@.len() - i,
    {
        proof {
            lemma_e_items_step(ivs, ind as int, i as int);
        }
        let ghost out_pre = out@;
        let mut content: Vec<char> = Vec::new();
        content.push('-');
        proof {
            assert(content@ =~= seq!['-']);
        }
        match inline_repr_exec(&items[i]) {
            Some(rep) => {
                if rep.len() > 0 {
                    content.push(' ');
                    push_chars(&mut content, &rep);
                    proof {
                        assert(content@ =~= head_with(seq!['-'], rep@));
                    }
                } else {
                    proof {
                        assert(content@ =~= head_with(seq!['-'], rep@));
                    }
                }
                let line = Line { indent: ind, content };
                let ghost lv = line.view();
                out.push(line);
                proof {
                    assert(line_views(out@) =~= line_views(out_pre) + seq![lv]);
                }
            },
            None => {
                let line = Line { indent: ind, content };
                let ghost lv = line.view();
                out.push(line);
                proof {
                    assert(line_views(out@) =~= line_views(out_pre) + seq![lv]);
                }
                proof {
                    let v = ivs[i as int];
                    assert(inline_repr(v) is None);
                    match v {
                        NodeV::Sequence(its) => {
                            lemma_depth_list_nonneg(its);
                        },
                        NodeV::Mapping(ees) => {
                            lemma_depth_entries_nonneg(ees);
                        },
                        _ => {},
                    }
                    assert(depth_v(v) >= 1);
                }
                emit_block(&items[i], ind + 2, out);
                proof {
                    assert(line_views(out@) =~= line_views(out_pre) + (seq![lv] + e_block(
                        ivs[i as int],
                        ind + 2,
                    )));
                }
            },
        }
        proof {
            assert(line_views(out@) + e_items(
                ivs.subrange(i + 1, ivs.len() as int),
                ind as int,
            ) =~= line_views(old(out)@) + e_items(ivs, ind as int));
        }
        i = i + 1;
    }
    proof {
        assert(e_items(ivs.subrange(i as int, ivs.len() as int), ind as int) =~= Seq::<
            LineV,
        >::empty());
        assert(line_views(out@) =~= line_views(out@) + Seq::<LineV>::empty());
    }
}

/// Whether the root entries fit within the writer's depth limit.
pub fn doc_fits(es: &Vec<(String, Node)>) -> (r: bool)
    ensures
        r == (depth_entries(entries_v(es@)) <= MAX_EMIT_DEPTH),
{
    entries_fit(es, MAX_EMIT_DEPTH)
}

/// Writes a document out. Fails exactly when the tree is nested deeper
/// than the writer's recursion limit.
pub fn emit_doc(es: &Vec<(String, Node)>) -> (r: Result<String, ()>)
    ensures
        match r {
            Ok(s) => depth_entries(entries_v(es@)) <= MAX_EMIT_DEPTH && s@ == doc_text(
                entries_v(es@),
            ),
            Err(_) => depth_entries(entries_v(es@)) > MAX_EMIT_DEPTH,
        },
{
    if !doc_fits(es) {
        return Err(());
    }
    let mut out: Vec<Line> = Vec::new();
    proof {
        assert(line_views(out@) =~= Seq::<LineV>::empty());
    }
    emit_entries(es, 0, &mut out);
    let cs = join_lines_exec(&out);
    proof {
        assert(Seq::<LineV>::empty() + e_entries(entries_v(es@), 0) =~= e_entries(
            entries_v(es@),
            0,
        ));
    }
    Ok(string_of(&cs))
}

} // verus!
