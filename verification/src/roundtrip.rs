//! The round-trip law: a well-formed document tree, written out and
//! parsed again, comes back unchanged — every mapping's key order and
//! every scalar's text survive serialization.

use vstd::prelude::*;
use crate::node::{NodeV, Style, map_has};
use crate::lines::{LineV, line_text, join_lines, split_lines, line_of};
use crate::text::{leading_from, trail_before, find_char_from, find_sep_from};
use crate::parse_spec::{ParseError, is_item_line, trimmed, count_deeper,
    lemma_count_deeper, p_flow_elem, p_inline, p_block, p_nested, entry_parts, p_entries,
    p_items, p_doc};
use crate::emit::{render_scalar, inline_repr, head_with, e_entries, e_items, e_block,
    doc_text};

verus! {

/// Free of newlines.
pub open spec fn wf_text(t: Seq<char>) -> bool {
    forall|i: int| 0 <= i < t.len() ==> #[trigger] t[i] != '\n'
}

/// A plain scalar the writer and reader agree on: no newlines, no flow
/// characters, no space or quote at either end.
pub open spec fn plain_ok(t: Seq<char>) -> bool {
    &&& wf_text(t)
    &&& forall|i: int|
        0 <= i < t.len() ==> #[trigger] t[i] != '[' && t[i] != ']' && t[i] != '{' && t[i]
            != '}'
    &&& t.len() > 0 ==> t[0] != ' ' && t[0] != '"' && t[0] != '\'' && t[t.len() - 1] != ' '
}

/// A scalar the round trip preserves.
pub open spec fn scalar_wf(t: Seq<char>, st: Style) -> bool {
    match st {
        Style::Plain => plain_ok(t),
        Style::Single => wf_text(t) && (forall|i: int|
            0 <= i < t.len() ==> #[trigger] t[i] != '\''),
        Style::Double => wf_text(t) && (forall|i: int|
            0 <= i < t.len() ==> #[trigger] t[i] != '"'),
    }
}

/// No `": "` pair inside the key.
pub open spec fn no_sep_inside(k: Seq<char>) -> bool {
    forall|j: int| 0 <= j && j + 1 < k.len() ==> !(#[trigger] k[j] == ':' && k[j + 1] == ' ')
}

/// A mapping key the round trip preserves.
pub open spec fn key_wf(k: Seq<char>) -> bool {
    &&& k.len() >= 1
    &&& wf_text(k)
    &&& k[0] != ' ' && k[0] != '#'
    &&& !(k.len() >= 2 && k[0] == '-' && k[1] == ' ')
    &&& no_sep_inside(k)
}

/// A tree the round trip preserves.
pub open spec fn wf_value(v: NodeV) -> bool
    decreases v, 0int,
{
    match v {
        NodeV::Scalar(t, st) => scalar_wf(t, st),
        NodeV::Sequence(items) => wf_items(items),
        NodeV::Mapping(es) => wf_entries(es),
    }
}

pub open spec fn wf_items(items: Seq<NodeV>) -> bool
    decreases items, 1int,
{
    if items.len() == 0 {
        true
    } else {
        wf_value(items[0]) && wf_items(items.drop_first())
    }
}

pub open spec fn wf_entries(es: Seq<(Seq<char>, NodeV)>) -> bool
    decreases es, 2int,
{
    &&& crate::node::unique_keys(es)
    &&& wf_entries_each(es)
}

pub open spec fn wf_entries_each(es: Seq<(Seq<char>, NodeV)>) -> bool
    decreases es, 1int,
{
    if es.len() == 0 {
        true
    } else {
        key_wf(es[0].0) && wf_value(es[0].1) && wf_entries_each(es.drop_first())
    }
}

pub proof fn lemma_wf_items_index(items: Seq<NodeV>)
    ensures
        wf_items(items) ==> forall|i: int| 0 <= i < items.len() ==> wf_value(
            #[trigger] items[i],
        ),
    decreases items,
{
    if items.len() > 0 {
        lemma_wf_items_index(items.drop_first());
        if wf_items(items) {
            assert forall|i: int| 0 <= i < items.len() implies wf_value(
                #[trigger] items[i],
            ) by {
                if i > 0 {
                    assert(items.drop_first()[i - 1] == items[i]);
                }
            }
        }
    }
}

pub proof fn lemma_wf_entries_index(es: Seq<(Seq<char>, NodeV)>)
    ensures
        wf_entries_each(es) ==> forall|i: int|
            0 <= i < es.len() ==> key_wf((#[trigger] es[i]).0) && wf_value(es[i].1),
    decreases es,
{
    if es.len() > 0 {
        lemma_wf_entries_index(es.drop_first());
        if wf_entries_each(es) {
            assert forall|i: int|
                0 <= i < es.len() implies key_wf((#[trigger] es[i]).0) && wf_value(
                es[i].1,
            ) by {
                if i > 0 {
                    assert(es.drop_first()[i - 1] == es[i]);
                }
            }
        }
    }
}

/// A logical line the splitter reads back exactly as written.
pub open spec fn wf_line(l: LineV) -> bool {
    &&& l.ind >= 0
    &&& l.text.len() >= 1
    &&& l.text[0] != ' '
    &&& l.text[0] != '#'
    &&& l.text[l.text.len() - 1] != ' '
    &&& wf_text(l.text)
}

pub open spec fn wf_lines(ls: Seq<LineV>) -> bool {
    forall|i: int| 0 <= i < ls.len() ==> wf_line(#[trigger] ls[i])
}

/// Where a character search must land.
proof fn lemma_find_char_exact(s: Seq<char>, c: char, i: int, k: int)
    requires
        0 <= i <= k <= s.len(),
        forall|j: int| i <= j < k ==> #[trigger] s[j] != c,
        k < s.len() ==> s[k] == c,
    ensures
        find_char_from(s, c, i) == (if k < s.len() {
            Some(k)
        } else {
            None::<int>
        }),
    decreases k - i,
{
    if i < k {
        lemma_find_char_exact(s, c, i + 1, k);
    }
}

/// Where a separator search must land; `k == s.len()` means none.
proof fn lemma_find_sep_exact(s: Seq<char>, i: int, k: int)
    requires
        0 <= i <= k <= s.len(),
        forall|j: int|
            i <= j < k ==> !(#[trigger] s[j] == ':' && j + 1 < s.len() && s[j + 1] == ' '),
        k + 1 < s.len() ==> s[k] == ':' && s[k + 1] == ' ',
    ensures
        find_sep_from(s, i) == (if k + 1 < s.len() {
            Some(k)
        } else {
            None::<int>
        }),
    decreases k - i,
{
    if i < k {
        if i + 1 >= s.len() {
        } else {
            lemma_find_sep_exact(s, i + 1, k);
        }
    }
}

/// Where the leading-space scan must end.
proof fn lemma_leading_exact(s: Seq<char>, k: int)
    requires
        0 <= k <= s.len(),
        forall|j: int| 0 <= j < k ==> #[trigger] s[j] == ' ',
        k < s.len() ==> s[k] != ' ',
    ensures
        leading_from(s, 0) == k,
{
    lemma_leading_exact_from(s, 0, k);
}

proof fn lemma_leading_exact_from(s: Seq<char>, i: int, k: int)
    requires
        0 <= i <= k <= s.len(),
        forall|j: int| i <= j < k ==> #[trigger] s[j] == ' ',
        k < s.len() ==> s[k] != ' ',
    ensures
        leading_from(s, i) == k,
    decreases k - i,
{
    if i < k {
        lemma_leading_exact_from(s, i + 1, k);
    }
}

/// One well-formed line joined and split again is itself, in front of
/// whatever follows.
proof fn lemma_split_one(l: LineV, rest: Seq<char>)
    requires
        wf_line(l),
    ensures
        split_lines(line_text(l) + rest) == seq![l] + split_lines(rest),
{
    let full = line_text(l) + rest;
    let raw_len = l.ind + l.text.len();
    // the newline written after the line is the first one
    assert forall|j: int| 0 <= j < raw_len implies #[trigger] full[j] != '\n' by {
        if j < l.ind {
            assert(full[j] == ' ');
        } else {
            assert(full[j] == l.text[j - l.ind]);
        }
    }
    assert(full[raw_len] == '\n');
    lemma_find_char_exact(full, '\n', 0, raw_len);
    assert(find_char_from(full, '\n', 0) == Some(raw_len));
    let raw = full.subrange(0, raw_len);
    let after = full.subrange(raw_len + 1, full.len() as int);
    assert(after =~= rest);
    // the raw line reads back as the line itself
    assert forall|j: int| 0 <= j < l.ind implies #[trigger] raw[j] == ' ' by {
        assert(raw[j] == full[j]);
    }
    assert(l.ind < raw.len() ==> raw[l.ind as int] != ' ') by {
        assert(raw[l.ind as int] == l.text[0]);
    }
    lemma_leading_exact(raw, l.ind);
    assert(leading_from(raw, 0) == l.ind);
    assert(raw[raw.len() - 1] == l.text[l.text.len() - 1]);
    assert(trail_before(raw, raw.len() as int) == raw.len());
    assert(raw[l.ind as int] == l.text[0]);
    assert(line_of(raw) =~= seq![LineV { ind: l.ind, text: raw.subrange(l.ind as int, raw.len() as int) }]);
    assert(raw.subrange(l.ind as int, raw.len() as int) =~= l.text);
    assert(line_of(raw) =~= seq![l]);
    assert(split_lines(full) == line_of(raw) + split_lines(after));
    assert(split_lines(full) =~= seq![l] + split_lines(rest));
}

/// Well-formed lines joined and split again are themselves.
pub proof fn lemma_split_join(ls: Seq<LineV>)
    requires
        wf_lines(ls),
    ensures
        split_lines(join_lines(ls)) == ls,
    decreases ls,
{
    if ls.len() == 0 {
        assert(split_lines(join_lines(ls)) =~= ls);
    } else {
        assert(wf_lines(ls.drop_first())) by {
            assert forall|i: int| 0 <= i < ls.drop_first().len() implies wf_line(
                #[trigger] ls.drop_first()[i],
            ) by {
                assert(ls.drop_first()[i] == ls[i + 1]);
            }
        }
        lemma_split_join(ls.drop_first());
        lemma_split_one(ls[0], join_lines(ls.drop_first()));
        assert(seq![ls[0]] + ls.drop_first() =~= ls);
    }
}

/// Trimming changes nothing when neither end is a space.
proof fn lemma_trimmed_id(s: Seq<char>)
    requires
        s.len() >= 1,
        s[0] != ' ',
        s[s.len() - 1] != ' ',
    ensures
        trimmed(s) == s,
{
    assert(leading_from(s, 0) == 0);
    assert(trail_before(s, s.len() as int) == s.len());
    assert(s.subrange(0, s.len() as int) =~= s);
}

/// The deeper-line count is what the shape of the lines dictates.
proof fn lemma_count_deeper_is(ls: Seq<LineV>, ind: int, c: int)
    requires
        0 <= c <= ls.len(),
        forall|i: int| 0 <= i < c ==> (#[trigger] ls[i]).ind > ind,
        c < ls.len() ==> ls[c].ind <= ind,
    ensures
        count_deeper(ls, ind) == c,
    decreases ls,
{
    if ls.len() == 0 {
    } else if c == 0 {
    } else {
        assert forall|i: int| 0 <= i < c - 1 implies (#[trigger] ls.drop_first()[i]).ind
            > ind by {
            assert(ls.drop_first()[i] == ls[i + 1]);
        }
        if c - 1 < ls.drop_first().len() {
            assert(ls.drop_first()[c - 1] == ls[c]);
        }
        lemma_count_deeper_is(ls.drop_first(), ind, c - 1);
    }
}

/// The written form of a scalar value is never a space at either end.
proof fn lemma_render_ends(t: Seq<char>, st: Style)
    requires
        scalar_wf(t, st),
        render_scalar(t, st).len() > 0,
    ensures
        render_scalar(t, st)[0] != ' ',
        render_scalar(t, st)[render_scalar(t, st).len() - 1] != ' ',
{
    let r = render_scalar(t, st);
    match st {
        Style::Plain => {},
        Style::Single => {
            assert(r[0] == '\'');
            assert(r[r.len() - 1] == '\'');
        },
        Style::Double => {
            assert(r[0] == '"');
            assert(r[r.len() - 1] == '"');
        },
    }
}

/// The inline form of a well-formed value, when it has one, has no
/// newline, no space at either end.
proof fn lemma_inline_repr_wf(v: NodeV)
    requires
        wf_value(v),
        inline_repr(v) is Some,
    ensures
        ({
            let rep = inline_repr(v)->0;
            &&& wf_text(rep)
            &&& rep.len() > 0 ==> rep[0] != ' ' && rep[rep.len() - 1] != ' '
        }),
{
    let rep = inline_repr(v)->0;
    match v {
        NodeV::Scalar(t, st) => {
            if rep.len() > 0 {
                lemma_render_ends(t, st);
            }
            assert(wf_text(rep)) by {
                match st {
                    Style::Plain => {},
                    Style::Single => {
                        assert forall|i: int| 0 <= i < rep.len() implies #[trigger] rep[i]
                            != '\n' by {
                            if 1 <= i < rep.len() - 1 {
                                assert(rep[i] == t[i - 1]);
                            }
                        }
                    },
                    Style::Double => {
                        assert forall|i: int| 0 <= i < rep.len() implies #[trigger] rep[i]
                            != '\n' by {
                            if 1 <= i < rep.len() - 1 {
                                assert(rep[i] == t[i - 1]);
                            }
                        }
                    },
                }
            }
        },
        NodeV::Sequence(items) => {
            assert(rep =~= seq!['[', ']']);
        },
        NodeV::Mapping(es) => {
            assert(rep =~= seq!['{', '}']);
        },
    }
}

/// The lines a mapping's entries write: all well formed, none above the
/// block's indent, the first exactly at it and not item-shaped.
proof fn lemma_entries_lines(es: Seq<(Seq<char>, NodeV)>, ind: int)
    requires
        wf_entries_each(es),
        ind >= 0,
    ensures
        wf_lines(e_entries(es, ind)),
        forall|i: int| 0 <= i < e_entries(es, ind).len() ==> (#[trigger] e_entries(
            es,
            ind,
        )[i]).ind >= ind,
        (e_entries(es, ind).len() > 0) == (es.len() > 0),
        es.len() > 0 ==> e_entries(es, ind)[0].ind == ind && !is_item_line(
            e_entries(es, ind)[0].text,
        ),
    decreases es, 1int,
{
    if es.len() > 0 {
        let k = es[0].0;
        let v = es[0].1;
        let head_text = match inline_repr(v) {
            Some(rep) => head_with(k + seq![':'], rep),
            None => k + seq![':'],
        };
        let head_line = LineV { ind: ind, text: head_text };
        let block = match inline_repr(v) {
            Some(_) => Seq::<LineV>::empty(),
            None => e_block(v, ind + 2),
        };
        let rest = e_entries(es.drop_first(), ind);
        assert(e_entries(es, ind) =~= seq![head_line] + block + rest);
        lemma_entries_lines(es.drop_first(), ind);
        if inline_repr(v) is None {
            lemma_block_lines(v, ind + 2);
        }
        // the head line is well formed
        assert(wf_line(head_line)) by {
            lemma_head_line_wf(k, v, ind);
        }
        assert(!is_item_line(head_text)) by {
            lemma_head_not_item(k, v);
        }
        assert forall|i: int| 0 <= i < e_entries(es, ind).len() implies wf_line(
            #[trigger] e_entries(es, ind)[i],
        ) && e_entries(es, ind)[i].ind >= ind by {
            let all = seq![head_line] + block + rest;
            if i == 0 {
            } else if i < 1 + block.len() {
                assert(all[i] == block[i - 1]);
            } else {
                assert(all[i] == rest[i - 1 - block.len()]);
            }
        }
    }
}

/// The lines a sequence's items write: the mirror facts, the first line
/// item-shaped.
proof fn lemma_items_lines(items: Seq<NodeV>, ind: int)
    requires
        wf_items(items),
        ind >= 0,
    ensures
        wf_lines(e_items(items, ind)),
        forall|i: int| 0 <= i < e_items(items, ind).len() ==> (#[trigger] e_items(
            items,
            ind,
        )[i]).ind >= ind,
        (e_items(items, ind).len() > 0) == (items.len() > 0),
        items.len() > 0 ==> e_items(items, ind)[0].ind == ind && is_item_line(
            e_items(items, ind)[0].text,
        ),
    decreases items, 1int,
{
    if items.len() > 0 {
        let v = items[0];
        let head_text = match inline_repr(v) {
            Some(rep) => head_with(seq!['-'], rep),
            None => seq!['-'],
        };
        let head_line = LineV { ind: ind, text: head_text };
        let block = match inline_repr(v) {
            Some(_) => Seq::<LineV>::empty(),
            None => e_block(v, ind + 2),
        };
        let rest = e_items(items.drop_first(), ind);
        assert(e_items(items, ind) =~= seq![head_line] + block + rest);
        lemma_items_lines(items.drop_first(), ind);
        if inline_repr(v) is None {
            lemma_block_lines(v, ind + 2);
        }
        assert(wf_line(head_line) && is_item_line(head_text)) by {
            lemma_item_head_wf(v);
        }
        assert forall|i: int| 0 <= i < e_items(items, ind).len() implies wf_line(
            #[trigger] e_items(items, ind)[i],
        ) && e_items(items, ind)[i].ind >= ind by {
            let all = seq![head_line] + block + rest;
            if i == 0 {
            } else if i < 1 + block.len() {
                assert(all[i] == block[i - 1]);
            } else {
                assert(all[i] == rest[i - 1 - block.len()]);
            }
        }
    }
}

/// The lines of a non-empty container block.
proof fn lemma_block_lines(v: NodeV, ind: int)
    requires
        wf_value(v),
        inline_repr(v) is None,
        ind >= 0,
    ensures
        wf_lines(e_block(v, ind)),
        forall|i: int| 0 <= i < e_block(v, ind).len() ==> (#[trigger] e_block(
            v,
            ind,
        )[i]).ind >= ind,
        e_block(v, ind).len() > 0,
        e_block(v, ind)[0].ind == ind,
    decreases v, 0int,
{
    match v {
        NodeV::Scalar(_, _) => {},
        NodeV::Sequence(items) => {
            lemma_items_lines(items, ind);
        },
        NodeV::Mapping(es) => {
            lemma_entries_lines(es, ind);
        },
    }
}

/// The head line of a mapping entry is well formed.
proof fn lemma_head_line_wf(k: Seq<char>, v: NodeV, ind: int)
    requires
        key_wf(k),
        wf_value(v),
        ind >= 0,
    ensures
        ({
            let text = match inline_repr(v) {
                Some(rep) => head_with(k + seq![':'], rep),
                None => k + seq![':'],
            };
            wf_line(LineV { ind: ind, text: text })
        }),
{
    let text = match inline_repr(v) {
        Some(rep) => head_with(k + seq![':'], rep),
        None => k + seq![':'],
    };
    if inline_repr(v) is Some {
        lemma_inline_repr_wf(v);
    }
    let rep_len: int = match inline_repr(v) {
        Some(rep) => if rep.len() == 0 {
            0
        } else {
            1 + rep.len() as int
        },
        None => 0,
    };
    assert(text.len() == k.len() + 1 + rep_len);
    assert(text[0] == k[0]);
    assert forall|i: int| 0 <= i < text.len() implies #[trigger] text[i] != '\n' by {
        if i < k.len() {
            assert(text[i] == k[i]);
        } else if i == k.len() {
            assert(text[i] == ':');
        } else if i == k.len() + 1 {
            assert(text[i] == ' ');
        } else {
            let rep = inline_repr(v)->0;
            assert(text[i] == rep[i - k.len() - 2]);
        }
    }
    assert(text[text.len() - 1] != ' ') by {
        if rep_len == 0 {
            assert(text[text.len() - 1] == ':');
        } else {
            let rep = inline_repr(v)->0;
            assert(text[text.len() - 1] == rep[rep.len() - 1]);
        }
    }
}

/// A mapping entry's head line never looks like a sequence item.
proof fn lemma_head_not_item(k: Seq<char>, v: NodeV)
    requires
        key_wf(k),
    ensures
        ({
            let text = match inline_repr(v) {
                Some(rep) => head_with(k + seq![':'], rep),
                None => k + seq![':'],
            };
            !is_item_line(text)
        }),
{
    let text = match inline_repr(v) {
        Some(rep) => head_with(k + seq![':'], rep),
        None => k + seq![':'],
    };
    assert(text[0] == k[0]);
    assert(text.len() >= k.len() + 1);
    if text == seq!['-'] {
        assert(text.len() == 1);
        assert(k.len() == 1 && text[0] == '-');
        assert(k =~= seq!['-']);
        assert(false);
    }
    if text.len() >= 2 && text[0] == '-' && text[1] == ' ' {
        // the second character comes from the key or is the colon
        if k.len() >= 2 {
            assert(text[1] == k[1]);
            assert(k[0] == '-' && k[1] == ' ');
            assert(false);
        } else {
            assert(k.len() == 1);
            assert(text[1] == ':');
            assert(false);
        }
    }
}

/// A sequence item's head line is well formed and item-shaped.
proof fn lemma_item_head_wf(v: NodeV)
    requires
        wf_value(v),
    ensures
        ({
            let text = match inline_repr(v) {
                Some(rep) => head_with(seq!['-'], rep),
                None => seq!['-'],
            };
            &&& wf_line(LineV { ind: 0, text: text })
            &&& is_item_line(text)
            &&& forall|ind: int| ind >= 0 ==> wf_line(LineV { ind: ind, text: text })
        }),
{
    let text = match inline_repr(v) {
        Some(rep) => head_with(seq!['-'], rep),
        None => seq!['-'],
    };
    if inline_repr(v) is Some {
        lemma_inline_repr_wf(v);
    }
    let rep_len: int = match inline_repr(v) {
        Some(rep) => if rep.len() == 0 {
            0
        } else {
            1 + rep.len() as int
        },
        None => 0,
    };
    assert(text.len() == 1 + rep_len);
    assert(text[0] == '-');
    if rep_len == 0 {
        assert(text =~= seq!['-']);
    } else {
        assert(text[1] == ' ');
    }
    assert forall|i: int| 0 <= i < text.len() implies #[trigger] text[i] != '\n' by {
        if i >= 2 {
            let rep = inline_repr(v)->0;
            assert(text[i] == rep[i - 2]);
        }
    }
    assert(text[text.len() - 1] != ' ') by {
        if rep_len > 0 {
            let rep = inline_repr(v)->0;
            assert(text[text.len() - 1] == rep[rep.len() - 1]);
        }
    }
}

/// A value written inline is read back as itself.
proof fn lemma_inv_inline(v: NodeV)
    requires
        wf_value(v),
        inline_repr(v) is Some,
        inline_repr(v)->0.len() > 0,
    ensures
        p_inline(inline_repr(v)->0) == Ok::<NodeV, ()>(v),
{
    let rep = inline_repr(v)->0;
    match v {
        NodeV::Scalar(t, st) => {
            match st {
                Style::Plain => {
                    assert(rep == t);
                    assert(!(exists|i: int|
                        0 <= i < t.len() && (t[i] == '[' || t[i] == ']' || t[i] == '{'
                            || t[i] == '}'))) by {
                        if exists|i: int|
                            0 <= i < t.len() && (t[i] == '[' || t[i] == ']' || t[i] == '{'
                                || t[i] == '}') {
                            let i = choose|i: int|
                                0 <= i < t.len() && (t[i] == '[' || t[i] == ']' || t[i]
                                    == '{' || t[i] == '}');
                            assert(t[i] != '[' && t[i] != ']' && t[i] != '{' && t[i]
                                != '}');
                        }
                    }
                    assert(p_flow_elem(t) == Ok::<NodeV, ()>(NodeV::Scalar(t, Style::Plain)));
                },
                Style::Single => {
                    assert(rep[0] == '\'');
                    assert(rep[rep.len() - 1] == '\'');
                    assert(rep.len() == t.len() + 2);
                    assert forall|i: int| 1 <= i < rep.len() - 1 implies #[trigger] rep[i]
                        != '\'' by {
                        assert(rep[i] == t[i - 1]);
                    }
                    assert(rep.subrange(1, rep.len() - 1) =~= t);
                },
                Style::Double => {
                    assert(rep[0] == '"');
                    assert(rep[rep.len() - 1] == '"');
                    assert(rep.len() == t.len() + 2);
                    assert forall|i: int| 1 <= i < rep.len() - 1 implies #[trigger] rep[i]
                        != '"' by {
                        assert(rep[i] == t[i - 1]);
                    }
                    assert(rep.subrange(1, rep.len() - 1) =~= t);
                },
            }
        },
        NodeV::Sequence(items) => {
            assert(items.len() == 0);
            assert(rep =~= seq!['[', ']']);
            assert(rep[0] == '[' && rep[rep.len() - 1] == ']' && rep.len() == 2);
            let inner = rep.subrange(1, rep.len() - 1);
            assert(inner =~= Seq::<char>::empty());
            assert(trimmed(inner).len() == 0);
            assert(items =~= Seq::<NodeV>::empty());
        },
        NodeV::Mapping(es) => {
            assert(es.len() == 0);
            assert(rep =~= seq!['{', '}']);
            assert(rep[0] == '{' && rep[rep.len() - 1] == '}' && rep.len() == 2);
            let inner = rep.subrange(1, rep.len() - 1);
            assert(inner =~= Seq::<char>::empty());
            assert(trimmed(inner).len() == 0);
            assert(es =~= Seq::<(Seq<char>, NodeV)>::empty());
        },
    }
}

/// What the head line of a mapping entry splits into.
proof fn lemma_entry_parts_head(k: Seq<char>, v: NodeV)
    requires
        key_wf(k),
        wf_value(v),
    ensures
        ({
            let text = match inline_repr(v) {
                Some(rep) => head_with(k + seq![':'], rep),
                None => k + seq![':'],
            };
            let rest = match inline_repr(v) {
                Some(rep) => rep,
                None => Seq::<char>::empty(),
            };
            entry_parts(text) == Some((k, rest))
        }),
{
    let kc = k + seq![':'];
    match inline_repr(v) {
        Some(rep) => {
            if rep.len() == 0 {
                let text = kc;
                assert forall|j: int|
                    0 <= j < text.len() implies !(#[trigger] text[j] == ':' && j + 1
                        < text.len() && text[j + 1] == ' ') by {
                    if j + 1 < text.len() {
                        if j + 1 < k.len() {
                            assert(text[j] == k[j] && text[j + 1] == k[j + 1]);
                        } else {
                            assert(text[j + 1] == ':');
                        }
                    }
                }
                lemma_find_sep_exact(text, 0, text.len() as int);
                assert(text[text.len() - 1] == ':');
                assert(text.subrange(0, text.len() - 1) =~= k);
            } else {
                let text = kc + seq![' '] + rep;
                assert forall|j: int|
                    0 <= j < k.len() implies !(#[trigger] text[j] == ':' && j + 1
                        < text.len() && text[j + 1] == ' ') by {
                    if j + 1 < k.len() {
                        assert(text[j] == k[j] && text[j + 1] == k[j + 1]);
                    } else {
                        assert(text[j + 1] == ':');
                    }
                }
                assert(text[k.len() as int] == ':');
                assert(text[k.len() as int + 1] == ' ');
                lemma_find_sep_exact(text, 0, k.len() as int);
                assert(find_sep_from(text, 0) == Some(k.len() as int));
                assert(k.len() > 0);
                assert(text.subrange(0, k.len() as int) =~= k);
                assert(text.subrange(k.len() as int + 2, text.len() as int) =~= rep);
                lemma_inline_repr_wf(v);
                lemma_trimmed_id(rep);
            }
        },
        None => {
            let text = kc;
            assert forall|j: int|
                0 <= j < text.len() implies !(#[trigger] text[j] == ':' && j + 1
                    < text.len() && text[j + 1] == ' ') by {
                if j + 1 < text.len() {
                    if j + 1 < k.len() {
                        assert(text[j] == k[j] && text[j + 1] == k[j + 1]);
                    } else {
                        assert(text[j + 1] == ':');
                    }
                }
            }
            lemma_find_sep_exact(text, 0, text.len() as int);
            assert(text[text.len() - 1] == ':');
            assert(text.subrange(0, text.len() - 1) =~= k);
        },
    }
}

/// An empty inline form means the value is the empty plain scalar.
proof fn lemma_empty_inline(v: NodeV)
    requires
        wf_value(v),
        inline_repr(v) is Some,
        inline_repr(v)->0.len() == 0,
    ensures
        v == NodeV::Scalar(Seq::<char>::empty(), Style::Plain),
{
    match v {
        NodeV::Scalar(t, st) => {
            match st {
                Style::Plain => {
                    assert(t =~= Seq::<char>::empty());
                },
                Style::Single => {
                    assert(inline_repr(v)->0.len() == t.len() + 2);
                },
                Style::Double => {
                    assert(inline_repr(v)->0.len() == t.len() + 2);
                },
            }
        },
        NodeV::Sequence(items) => {
            assert(inline_repr(v)->0 =~= seq!['[', ']']);
        },
        NodeV::Mapping(es) => {
            assert(inline_repr(v)->0 =~= seq!['{', '}']);
        },
    }
}

/// A mapping's written entries are read back as themselves.
proof fn lemma_inv_entries(es: Seq<(Seq<char>, NodeV)>, ind: int)
    requires
        wf_entries(es),
        ind >= 0,
    ensures
        p_entries(e_entries(es, ind), ind) == Ok::<Seq<(Seq<char>, NodeV)>, ()>(es),
    decreases es, 1int,
{
    let ls = e_entries(es, ind);
    if es.len() == 0 {
        assert(ls =~= Seq::<LineV>::empty());
        assert(p_entries(ls, ind) == Ok::<Seq<(Seq<char>, NodeV)>, ()>(Seq::empty()));
        assert(es =~= Seq::<(Seq<char>, NodeV)>::empty());
    } else {
        let k = es[0].0;
        let v = es[0].1;
        let rest = es.drop_first();
        assert(key_wf(k) && wf_value(v));
        assert(wf_entries(rest)) by {
            assert forall|i: int, j: int|
                0 <= i < j < rest.len() implies rest[i].0 != rest[j].0 by {
                assert(rest[i] == es[i + 1] && rest[j] == es[j + 1]);
            }
        }
        let head_text = match inline_repr(v) {
            Some(rep) => head_with(k + seq![':'], rep),
            None => k + seq![':'],
        };
        let head = LineV { ind: ind, text: head_text };
        let block = match inline_repr(v) {
            Some(_) => Seq::<LineV>::empty(),
            None => e_block(v, ind + 2),
        };
        let restls = e_entries(rest, ind);
        assert(ls =~= seq![head] + block + restls);
        assert(ls[0] == head);
        lemma_head_not_item(k, v);
        lemma_entry_parts_head(k, v);
        lemma_entries_lines(rest, ind);
        if inline_repr(v) is None {
            lemma_block_lines(v, ind + 2);
        }
        // the nested extent is exactly the block's lines
        let follow = ls.subrange(1, ls.len() as int);
        assert(follow =~= block + restls);
        assert forall|i: int| 0 <= i < block.len() implies (#[trigger] follow[i]).ind
            > ind by {
            assert(follow[i] == block[i]);
        }
        if block.len() < follow.len() {
            assert(follow[block.len() as int] == restls[0]);
            assert(restls.len() > 0);
            assert(follow[block.len() as int].ind == ind);
        }
        lemma_count_deeper_is(follow, ind, block.len() as int);
        let c = count_deeper(follow, ind);
        assert(c == block.len());
        let nested = ls.subrange(1, 1 + c);
        assert(nested =~= block);
        let tail = ls.subrange(1 + c, ls.len() as int);
        assert(tail =~= restls);
        // the value comes back
        let rest_inline = match inline_repr(v) {
            Some(rep) => rep,
            None => Seq::<char>::empty(),
        };
        if inline_repr(v) is Some {
            let rep = inline_repr(v)->0;
            if rep.len() == 0 {
                lemma_empty_inline(v);
                assert(nested =~= Seq::<LineV>::empty());
                assert(p_nested(nested) == Ok::<NodeV, ()>(v));
            } else {
                lemma_inv_inline(v);
                assert(c == 0);
                assert(p_inline(rep) == Ok::<NodeV, ()>(v));
            }
        } else {
            assert(block.len() > 0);
            assert(nested.len() > 0);
            assert(nested[0].ind == ind + 2);
            lemma_inv_block(v, ind + 2);
            assert(p_block(nested, ind + 2) == Ok::<NodeV, ()>(v));
            assert(p_nested(nested) == Ok::<NodeV, ()>(v));
        }
        // the remaining entries come back
        lemma_inv_entries(rest, ind);
        assert(p_entries(tail, ind) == Ok::<Seq<(Seq<char>, NodeV)>, ()>(rest));
        // the key is new
        assert(!map_has(rest, k)) by {
            if map_has(rest, k) {
                let i = choose|i: int| 0 <= i < rest.len() && rest[i].0 == k;
                assert(rest[i] == es[i + 1]);
                assert(es[i + 1].0 == es[0].0);
            }
        }
        assert(p_entries(ls, ind) == Ok::<Seq<(Seq<char>, NodeV)>, ()>(
            seq![(k, v)] + rest,
        ));
        assert(seq![(k, v)] + rest =~= es);
    }
}

/// A sequence's written items are read back as themselves.
proof fn lemma_inv_items(items: Seq<NodeV>, ind: int)
    requires
        wf_items(items),
        ind >= 0,
    ensures
        p_items(e_items(items, ind), ind) == Ok::<Seq<NodeV>, ()>(items),
    decreases items, 1int,
{
    let ls = e_items(items, ind);
    if items.len() == 0 {
        assert(ls =~= Seq::<LineV>::empty());
        assert(items =~= Seq::<NodeV>::empty());
    } else {
        let v = items[0];
        let rest = items.drop_first();
        assert(wf_value(v) && wf_items(rest));
        let head_text = match inline_repr(v) {
            Some(rep) => head_with(seq!['-'], rep),
            None => seq!['-'],
        };
        let head = LineV { ind: ind, text: head_text };
        let block = match inline_repr(v) {
            Some(_) => Seq::<LineV>::empty(),
            None => e_block(v, ind + 2),
        };
        let restls = e_items(rest, ind);
        assert(ls =~= seq![head] + block + restls);
        assert(ls[0] == head);
        lemma_item_head_wf(v);
        lemma_items_lines(rest, ind);
        if inline_repr(v) is None {
            lemma_block_lines(v, ind + 2);
        }
        let follow = ls.subrange(1, ls.len() as int);
        assert(follow =~= block + restls);
        assert forall|i: int| 0 <= i < block.len() implies (#[trigger] follow[i]).ind
            > ind by {
            assert(follow[i] == block[i]);
        }
        if block.len() < follow.len() {
            assert(follow[block.len() as int] == restls[0]);
            assert(restls.len() > 0);
            assert(follow[block.len() as int].ind == ind);
        }
        lemma_count_deeper_is(follow, ind, block.len() as int);
        let c = count_deeper(follow, ind);
        assert(c == block.len());
        let nested = ls.subrange(1, 1 + c);
        assert(nested =~= block);
        let tail = ls.subrange(1 + c, ls.len() as int);
        assert(tail =~= restls);
        // the written rest of the line
        if inline_repr(v) is Some {
            let rep = inline_repr(v)->0;
            if rep.len() == 0 {
                assert(head_text =~= seq!['-']);
                lemma_empty_inline(v);
                assert(nested =~= Seq::<LineV>::empty());
                assert(p_nested(nested) == Ok::<NodeV, ()>(v));
            } else {
                assert(head_text == seq!['-'] + seq![' '] + rep);
                assert(head_text.len() >= 3);
                assert(head_text != seq!['-']) by {
                    assert(head_text.len() != 1);
                }
                assert(head_text.subrange(2, head_text.len() as int) =~= rep);
                lemma_inline_repr_wf(v);
                lemma_trimmed_id(rep);
                assert(trimmed(head_text.subrange(2, head_text.len() as int)) == rep);
                lemma_inv_inline(v);
                assert(c == 0);
                assert(p_inline(rep) == Ok::<NodeV, ()>(v));
            }
        } else {
            assert(head_text =~= seq!['-']);
            assert(block.len() > 0);
            assert(nested.len() > 0);
            assert(nested[0].ind == ind + 2);
            lemma_inv_block(v, ind + 2);
            assert(p_nested(nested) == Ok::<NodeV, ()>(v));
        }
        lemma_inv_items(rest, ind);
        assert(p_items(tail, ind) == Ok::<Seq<NodeV>, ()>(rest));
        assert(p_items(ls, ind) == Ok::<Seq<NodeV>, ()>(seq![v] + rest));
        assert(seq![v] + rest =~= items);
    }
}

/// A written non-empty container block is read back as itself.
proof fn lemma_inv_block(v: NodeV, ind: int)
    requires
        wf_value(v),
        inline_repr(v) is None,
        ind >= 0,
    ensures
        p_block(e_block(v, ind), ind) == Ok::<NodeV, ()>(v),
    decreases v, 0int,
{
    match v {
        NodeV::Scalar(_, _) => {},
        NodeV::Sequence(items) => {
            lemma_items_lines(items, ind);
            lemma_inv_items(items, ind);
        },
        NodeV::Mapping(es) => {
            lemma_entries_lines(es, ind);
            lemma_inv_entries(es, ind);
        },
    }
}

/// Round trip: a well-formed, non-empty document written out and parsed
/// again is itself — every mapping's key order and every scalar's text
/// survive serialization.
pub proof fn lemma_round_trip(es: Seq<(Seq<char>, NodeV)>)
    requires
        wf_entries(es),
        es.len() > 0,
    ensures
        p_doc(doc_text(es)) == Ok::<NodeV, ParseError>(NodeV::Mapping(es)),
{
    let ls = e_entries(es, 0);
    lemma_entries_lines(es, 0);
    lemma_split_join(ls);
    assert(split_lines(doc_text(es)) == ls);
    assert(ls.len() > 0);
    assert(ls[0].ind == 0);
    lemma_inv_entries(es, 0);
    assert(p_block(ls, 0) == Ok::<NodeV, ()>(NodeV::Mapping(es)));
}

/// Where the leading-space scan lands.
proof fn lemma_leading_range(s: Seq<char>, i: int)
    requires
        0 <= i <= s.len(),
    ensures
        i <= leading_from(s, i) <= s.len(),
        leading_from(s, i) < s.len() ==> s[leading_from(s, i)] != ' ',
        forall|j: int| i <= j < leading_from(s, i) ==> #[trigger] s[j] == ' ',
    decreases s.len() - i,
{
    if i < s.len() && s[i] == ' ' {
        lemma_leading_range(s, i + 1);
    }
}

/// Where the trailing-space scan lands.
proof fn lemma_trail_range(s: Seq<char>, j: int)
    requires
        0 <= j <= s.len(),
    ensures
        0 <= trail_before(s, j) <= j,
        trail_before(s, j) > 0 ==> s[trail_before(s, j) - 1] != ' ',
    decreases j,
{
    if j > 0 && s[j - 1] == ' ' {
        lemma_trail_range(s, j - 1);
    }
}

/// What trimming guarantees of its result.
proof fn lemma_trimmed_props(s: Seq<char>)
    requires
        wf_text(s),
    ensures
        wf_text(trimmed(s)),
        trimmed(s).len() > 0 ==> trimmed(s)[0] != ' ' && trimmed(s)[trimmed(s).len() - 1]
            != ' ',
{
    lemma_leading_range(s, 0);
    lemma_trail_range(s, s.len() as int);
    let lo = leading_from(s, 0);
    let hi = trail_before(s, s.len() as int);
    if hi > lo {
        let t = s.subrange(lo, hi);
        assert(t[0] == s[lo]);
        assert(t[t.len() - 1] == s[hi - 1]);
        assert forall|i: int| 0 <= i < t.len() implies #[trigger] t[i] != '\n' by {
            assert(t[i] == s[lo + i]);
        }
    }
}

/// Where the separator scan stops short of its answer.
proof fn lemma_find_sep_range(s: Seq<char>, i: int)
    requires
        0 <= i,
    ensures
        match find_sep_from(s, i) {
            Some(k) => i <= k && k + 1 < s.len() && s[k] == ':' && s[k + 1] == ' ' && (
            forall|j: int| i <= j < k ==> !(#[trigger] s[j] == ':' && s[j + 1] == ' ')),
            None => forall|j: int|
                i <= j && j + 1 < s.len() ==> !(#[trigger] s[j] == ':' && s[j + 1] == ' '),
        },
    decreases s.len() - i,
{
    if i + 1 >= s.len() {
    } else if s[i] == ':' && s[i + 1] == ' ' {
    } else {
        lemma_find_sep_range(s, i + 1);
    }
}

/// The splitter only makes well-formed lines.
proof fn lemma_split_wf(text: Seq<char>)
    ensures
        wf_lines(split_lines(text)),
    decreases text.len(),
{
    crate::lines::lemma_find_char_range(text, '\n', 0);
    match find_char_from(text, '\n', 0) {
        Some(i) => {
            let raw = text.subrange(0, i);
            assert forall|j: int| 0 <= j < raw.len() implies #[trigger] raw[j] != '\n' by {
                assert(raw[j] == text[j]);
            }
            lemma_line_of_wf(raw);
            lemma_split_wf(text.subrange(i + 1, text.len() as int));
            assert forall|j: int|
                0 <= j < split_lines(text).len() implies wf_line(
                #[trigger] split_lines(text)[j],
            ) by {
                let a = line_of(raw);
                let b = split_lines(text.subrange(i + 1, text.len() as int));
                assert(split_lines(text) == a + b);
                if j < a.len() {
                    assert(split_lines(text)[j] == a[j]);
                } else {
                    assert(split_lines(text)[j] == b[j - a.len()]);
                }
            }
        },
        None => {
            lemma_line_of_wf(text);
        },
    }
}

/// One raw line yields nothing, or one well-formed line.
proof fn lemma_line_of_wf(raw: Seq<char>)
    requires
        forall|j: int| 0 <= j < raw.len() ==> #[trigger] raw[j] != '\n',
    ensures
        wf_lines(line_of(raw)),
{
    lemma_leading_range(raw, 0);
    lemma_trail_range(raw, raw.len() as int);
    let ind = leading_from(raw, 0);
    let end = trail_before(raw, raw.len() as int);
    if end > ind && raw[ind] != '#' {
        let l = line_of(raw)[0];
        assert(l.text == raw.subrange(ind, end));
        assert(l.text[0] == raw[ind]);
        assert(l.text[l.text.len() - 1] == raw[end - 1]);
        assert forall|j: int| 0 <= j < l.text.len() implies #[trigger] l.text[j]
            != '\n' by {
            assert(l.text[j] == raw[ind + j]);
        }
    }
}

/// What the reader builds from an inline value is well formed.
proof fn lemma_parse_wf_flow_elem(e: Seq<char>)
    requires
        wf_text(e),
        e.len() > 0 ==> e[0] != ' ' && e[e.len() - 1] != ' ',
        p_flow_elem(e) is Ok,
    ensures
        wf_value(p_flow_elem(e)->Ok_0),
{
    let v = p_flow_elem(e)->Ok_0;
    if e[0] == '"' {
        let mid = e.subrange(1, e.len() - 1);
        assert forall|i: int| 0 <= i < mid.len() implies #[trigger] mid[i] != '\n' by {
            assert(mid[i] == e[i + 1]);
        }
    } else if e[0] == '\'' {
        let mid = e.subrange(1, e.len() - 1);
        assert forall|i: int| 0 <= i < mid.len() implies #[trigger] mid[i] != '\n' by {
            assert(mid[i] == e[i + 1]);
        }
    } else {
        assert(plain_ok(e)) by {
            assert forall|i: int|
                0 <= i < e.len() implies #[trigger] e[i] != '[' && e[i] != ']' && e[i]
                    != '{' && e[i] != '}' by {
                if e[i] == '[' || e[i] == ']' || e[i] == '{' || e[i] == '}' {
                    assert(exists|j: int|
                        0 <= j < e.len() && (e[j] == '[' || e[j] == ']' || e[j] == '{'
                            || e[j] == '}'));
                }
            }
        }
    }
}

/// Every element of a flow list the reader accepts is well formed.
proof fn lemma_parse_wf_flow_elems(inner: Seq<char>, from: int)
    requires
        wf_text(inner),
        0 <= from,
        crate::parse_spec::p_flow_elems(inner, from) is Ok,
    ensures
        wf_items(crate::parse_spec::p_flow_elems(inner, from)->Ok_0),
    decreases inner.len() - from,
{
    if from > inner.len() {
    } else {
        crate::lines::lemma_find_char_range(inner, ',', from);
        match find_char_from(inner, ',', from) {
            Some(i) => {
                let seg = inner.subrange(from, i);
                assert forall|j: int| 0 <= j < seg.len() implies #[trigger] seg[j]
                    != '\n' by {
                    assert(seg[j] == inner[from + j]);
                }
                lemma_trimmed_props(seg);
                lemma_parse_wf_flow_elem(trimmed(seg));
                lemma_parse_wf_flow_elems(inner, i + 1);
                let head = crate::parse_spec::p_flow_elem(trimmed(seg))->Ok_0;
                let rest = crate::parse_spec::p_flow_elems(inner, i + 1)->Ok_0;
                assert(wf_items(seq![head] + rest)) by {
                    assert((seq![head] + rest)[0] == head);
                    assert((seq![head] + rest).drop_first() =~= rest);
                }
            },
            None => {
                let seg = inner.subrange(from, inner.len() as int);
                assert forall|j: int| 0 <= j < seg.len() implies #[trigger] seg[j]
                    != '\n' by {
                    assert(seg[j] == inner[from + j]);
                }
                lemma_trimmed_props(seg);
                lemma_parse_wf_flow_elem(trimmed(seg));
                let head = crate::parse_spec::p_flow_elem(trimmed(seg))->Ok_0;
                assert(wf_items(Seq::<NodeV>::empty()));
                assert(wf_items(seq![head])) by {
                    assert(seq![head].drop_first() =~= Seq::<NodeV>::empty());
                }
            },
        }
    }
}

/// What the reader builds from an inline rest is well formed.
proof fn lemma_parse_wf_inline(rest: Seq<char>)
    requires
        wf_text(rest),
        rest.len() > 0 ==> rest[0] != ' ' && rest[rest.len() - 1] != ' ',
        p_inline(rest) is Ok,
    ensures
        wf_value(p_inline(rest)->Ok_0),
{
    if rest.len() == 0 {
    } else if rest[0] == '[' {
        let inner = rest.subrange(1, rest.len() - 1);
        assert forall|j: int| 0 <= j < inner.len() implies #[trigger] inner[j] != '\n' by {
            assert(inner[j] == rest[j + 1]);
        }
        if trimmed(inner).len() == 0 {
            assert(wf_items(Seq::<NodeV>::empty()));
        } else {
            lemma_parse_wf_flow_elems(inner, 0);
        }
    } else if rest[0] == '{' {
        assert(wf_entries(Seq::<(Seq<char>, NodeV)>::empty()));
    } else {
        lemma_parse_wf_flow_elem(rest);
    }
}

/// Every mapping the reader accepts is well formed.
proof fn lemma_parse_wf_entries(ls: Seq<LineV>, ind: int)
    requires
        wf_lines(ls),
        p_entries(ls, ind) is Ok,
    ensures
        wf_entries(p_entries(ls, ind)->Ok_0),
    decreases ls.len(), 0int,
{
    if ls.len() == 0 {
        assert(wf_entries(Seq::<(Seq<char>, NodeV)>::empty()));
    } else {
        let t = ls[0].text;
        assert(wf_line(ls[0]));
        let kr = entry_parts(t)->0;
        let key = kr.0;
        let rest = kr.1;
        lemma_find_sep_range(t, 0);
        // the key is well formed
        assert(key_wf(key)) by {
            match find_sep_from(t, 0) {
                Some(i) => {
                    assert(key == t.subrange(0, i));
                    assert(key[0] == t[0]);
                    assert forall|j: int| 0 <= j < key.len() implies #[trigger] key[j]
                        != '\n' by {
                        assert(key[j] == t[j]);
                    }
                    assert(no_sep_inside(key)) by {
                        assert forall|j: int|
                            0 <= j && j + 1 < key.len() implies !(#[trigger] key[j] == ':'
                                && key[j + 1] == ' ') by {
                            assert(key[j] == t[j] && key[j + 1] == t[j + 1]);
                        }
                    }
                    if key.len() >= 2 && key[0] == '-' && key[1] == ' ' {
                        assert(t[0] == '-' && t[1] == ' ');
                        assert(is_item_line(t));
                    }
                },
                None => {
                    assert(key == t.subrange(0, t.len() - 1));
                    assert(key[0] == t[0]);
                    assert forall|j: int| 0 <= j < key.len() implies #[trigger] key[j]
                        != '\n' by {
                        assert(key[j] == t[j]);
                    }
                    assert(no_sep_inside(key)) by {
                        assert forall|j: int|
                            0 <= j && j + 1 < key.len() implies !(#[trigger] key[j] == ':'
                                && key[j + 1] == ' ') by {
                            assert(key[j] == t[j] && key[j + 1] == t[j + 1]);
                        }
                    }
                    if key.len() >= 2 && key[0] == '-' && key[1] == ' ' {
                        assert(t[0] == '-' && t[1] == ' ');
                        assert(is_item_line(t));
                    }
                },
            }
        }
        // the value is well formed
        let c = count_deeper(ls.subrange(1, ls.len() as int), ind);
        lemma_count_deeper(ls.subrange(1, ls.len() as int), ind);
        let nested = ls.subrange(1, 1 + c);
        let tail = ls.subrange(1 + c, ls.len() as int);
        assert(wf_lines(nested)) by {
            assert forall|j: int| 0 <= j < nested.len() implies wf_line(
                #[trigger] nested[j],
            ) by {
                assert(nested[j] == ls[j + 1]);
            }
        }
        assert(wf_lines(tail)) by {
            assert forall|j: int| 0 <= j < tail.len() implies wf_line(
                #[trigger] tail[j],
            ) by {
                assert(tail[j] == ls[j + 1 + c]);
            }
        }
        let val = if rest.len() == 0 {
            p_nested(nested)
        } else {
            p_inline(rest)
        };
        assert(wf_value(val->Ok_0)) by {
            if rest.len() == 0 {
                lemma_parse_wf_nested(nested);
            } else {
                // the rest is a trimmed slice of the line
                match find_sep_from(t, 0) {
                    Some(i) => {
                        let seg = t.subrange(i + 2, t.len() as int);
                        assert forall|j: int| 0 <= j < seg.len() implies #[trigger] seg[j]
                            != '\n' by {
                            assert(seg[j] == t[i + 2 + j]);
                        }
                        lemma_trimmed_props(seg);
                        lemma_parse_wf_inline(rest);
                    },
                    None => {},
                }
            }
        }
        lemma_parse_wf_entries(tail, ind);
        let es_rest = p_entries(tail, ind)->Ok_0;
        let es = seq![(key, val->Ok_0)] + es_rest;
        assert(wf_entries(es)) by {
            assert(es[0] == (key, val->Ok_0));
            assert(es.drop_first() =~= es_rest);
            assert(crate::node::unique_keys(es)) by {
                assert forall|a: int, b: int|
                    0 <= a < b < es.len() implies es[a].0 != es[b].0 by {
                    if a == 0 {
                        assert(es[b] == es_rest[b - 1]);
                        if es[b].0 == key {
                            assert(map_has(es_rest, key)) by {
                                assert(es_rest[b - 1].0 == key);
                            }
                        }
                    } else {
                        assert(es[a] == es_rest[a - 1] && es[b] == es_rest[b - 1]);
                    }
                }
            }
        }
    }
}

/// Every sequence the reader accepts is well formed.
proof fn lemma_parse_wf_items(ls: Seq<LineV>, ind: int)
    requires
        wf_lines(ls),
        p_items(ls, ind) is Ok,
    ensures
        wf_items(p_items(ls, ind)->Ok_0),
    decreases ls.len(), 0int,
{
    if ls.len() == 0 {
        assert(wf_items(Seq::<NodeV>::empty()));
    } else {
        let t = ls[0].text;
        assert(wf_line(ls[0]));
        let rest = if t == seq!['-'] {
            Seq::<char>::empty()
        } else {
            trimmed(t.subrange(2, t.len() as int))
        };
        let c = count_deeper(ls.subrange(1, ls.len() as int), ind);
        lemma_count_deeper(ls.subrange(1, ls.len() as int), ind);
        let nested = ls.subrange(1, 1 + c);
        let tail = ls.subrange(1 + c, ls.len() as int);
        assert(wf_lines(nested)) by {
            assert forall|j: int| 0 <= j < nested.len() implies wf_line(
                #[trigger] nested[j],
            ) by {
                assert(nested[j] == ls[j + 1]);
            }
        }
        assert(wf_lines(tail)) by {
            assert forall|j: int| 0 <= j < tail.len() implies wf_line(
                #[trigger] tail[j],
            ) by {
                assert(tail[j] == ls[j + 1 + c]);
            }
        }
        let val = if rest.len() == 0 {
            p_nested(nested)
        } else {
            p_inline(rest)
        };
        assert(wf_value(val->Ok_0)) by {
            if rest.len() == 0 {
                lemma_parse_wf_nested(nested);
            } else {
                let seg = t.subrange(2, t.len() as int);
                assert forall|j: int| 0 <= j < seg.len() implies #[trigger] seg[j]
                    != '\n' by {
                    assert(seg[j] == t[2 + j]);
                }
                lemma_trimmed_props(seg);
                lemma_parse_wf_inline(rest);
            }
        }
        lemma_parse_wf_items(tail, ind);
        let items_rest = p_items(tail, ind)->Ok_0;
        let items = seq![val->Ok_0] + items_rest;
        assert(wf_items(items)) by {
            assert(items[0] == val->Ok_0);
            assert(items.drop_first() =~= items_rest);
        }
    }
}

/// Every nested value the reader accepts is well formed.
proof fn lemma_parse_wf_nested(nested: Seq<LineV>)
    requires
        wf_lines(nested),
        p_nested(nested) is Ok,
    ensures
        wf_value(p_nested(nested)->Ok_0),
    decreases nested.len(), 2int,
{
    if nested.len() == 0 {
        assert(plain_ok(Seq::<char>::empty()));
    } else {
        lemma_parse_wf_block(nested, nested[0].ind);
    }
}

/// Every block the reader accepts is well formed.
proof fn lemma_parse_wf_block(ls: Seq<LineV>, ind: int)
    requires
        wf_lines(ls),
        p_block(ls, ind) is Ok,
    ensures
        wf_value(p_block(ls, ind)->Ok_0),
    decreases ls.len(), 1int,
{
    if ls.len() > 0 {
        if is_item_line(ls[0].text) {
            lemma_parse_wf_items(ls, ind);
        } else {
            lemma_parse_wf_entries(ls, ind);
        }
    }
}

/// Whatever the reader accepts is well formed.
pub proof fn lemma_parse_wf(text: Seq<char>)
    requires
        p_doc(text) is Ok,
    ensures
        p_doc(text)->Ok_0 matches NodeV::Mapping(es) && wf_entries(es),
{
    let ls = split_lines(text);
    lemma_split_wf(text);
    lemma_parse_wf_block(ls, ls[0].ind);
}

/// Serialization is faithful: writing out what was parsed and parsing it
/// again gives exactly the same tree, so every mapping's key order and
/// every scalar's text survive the round trip.
pub proof fn lemma_serialize_after_parse(text: Seq<char>)
    requires
        p_doc(text) is Ok,
    ensures
        p_doc(text)->Ok_0 matches NodeV::Mapping(es) && p_doc(doc_text(es)) == Ok::<
            NodeV,
            ParseError,
        >(NodeV::Mapping(es)),
{
    lemma_parse_wf(text);
    let v = p_doc(text)->Ok_0;
    match v {
        NodeV::Mapping(es) => {
            assert(es.len() > 0) by {
                let ls = split_lines(text);
                assert(p_entries(ls, ls[0].ind) == Ok::<Seq<(Seq<char>, NodeV)>, ()>(es));
            }
            lemma_round_trip(es);
        },
        _ => {},
    }
}

} // verus!
