//! Splitting document text into logical lines (indent + content) and
//! joining lines back into text. Blank lines and whole-line comments are
//! dropped; trailing spaces are trimmed.

use vstd::prelude::*;
use crate::text::{leading_from, trail_before, find_char_from, leading_spaces, trimmed_end,
    sub_chars, chars_of};

verus! {

/// Specification-level line: an indentation depth and the content after it.
pub struct LineV {
    pub ind: int,
    pub text: Seq<char>,
}

/// Executable line.
pub struct Line {
    pub indent: usize,
    pub content: Vec<char>,
}

impl Line {
    pub open spec fn view(&self) -> LineV {
        LineV { ind: self.indent as int, text: self.content@ }
    }
}

/// The views of a vector of lines, in order.
pub open spec fn line_views(ls: Seq<Line>) -> Seq<LineV> {
    ls.map_values(|l: Line| l.view())
}

/// The zero or one logical lines a raw (newline-free) line yields.
pub open spec fn line_of(raw: Seq<char>) -> Seq<LineV> {
    let ind = leading_from(raw, 0);
    let end = trail_before(raw, raw.len() as int);
    if end <= ind {
        Seq::empty()
    } else if raw[ind] == '#' {
        Seq::empty()
    } else {
        seq![LineV { ind: ind, text: raw.subrange(ind, end) }]
    }
}

/// All logical lines of a text.
pub open spec fn split_lines(text: Seq<char>) -> Seq<LineV>
    decreases text.len(),
    via split_lines_dec
{
    match find_char_from(text, '\n', 0) {
        Some(i) => line_of(text.subrange(0, i)) + split_lines(
            text.subrange(i + 1, text.len() as int),
        ),
        None => line_of(text),
    }
}

#[via_fn]
proof fn split_lines_dec(text: Seq<char>) {
    lemma_find_char_range(text, '\n', 0);
}

pub proof fn lemma_find_char_range(s: Seq<char>, c: char, i: int)
    requires
        0 <= i <= s.len(),
    ensures
        match find_char_from(s, c, i) {
            Some(k) => i <= k < s.len() && s[k] == c && (forall|j: int|
                i <= j < k ==> s[j] != c),
            None => forall|j: int| i <= j < s.len() ==> s[j] != c,
        },
    decreases s.len() - i,
{
    if i < s.len() && s[i] != c {
        lemma_find_char_range(s, c, i + 1);
    }
}

/// Splits text into logical lines.
pub fn split_lines_exec(text: &Vec<char>) -> (r: Vec<Line>)
    ensures
        line_views(r@) == split_lines(text@),
{
    let n = text.len();
    let mut r: Vec<Line> = Vec::new();
    let mut pos: usize = 0;
    proof {
        assert(text@.subrange(0, n as int) =~= text@);
        assert(line_views(r@) =~= Seq::<LineV>::empty());
        assert(line_views(r@) + split_lines(text@.subrange(0, n as int)) =~= split_lines(
            text@,
        ));
    }
    loop
        invariant_except_break
            0 <= pos <= n,
            n == text@.len(),
            line_views(r@) + split_lines(text@.subrange(pos as int, n as int)) == split_lines(
                text@,
            ),
        ensures
            line_views(r@) == split_lines(text@),
        decreases n - pos,
    {
        let raw_end: usize;
        let next_pos: usize;
        match crate::text::find_char(text, '\n', pos) {
            Some(k) => {
                proof {
                    lemma_find_char_range(text@, '\n', pos as int);
                }
                raw_end = k;
                next_pos = k + 1;
            },
            None => {
                proof {
                    lemma_find_char_range(text@, '\n', pos as int);
                }
                raw_end = n;
                next_pos = n;
            },
        }
        let ghost raw = text@.subrange(pos as int, raw_end as int);
        proof {
            // the relative search in the suffix agrees with the absolute one
            lemma_find_shift(text@, pos as int, raw_end as int, next_pos as int);
        }
        let ghost r_old = r@;
        // build the logical line for raw = text[pos..raw_end]
        let seg = sub_chars(text, pos, raw_end);
        let ind = leading_spaces(&seg);
        let end = trimmed_end(&seg);
        if end > ind && seg[ind] != '#' {
            let content = sub_chars(&seg, ind, end);
            let line = Line { indent: ind, content };
            let ghost lv = line.view();
            r.push(line);
            proof {
                assert(line_of(raw) =~= seq![lv]);
                lemma_views_push(r_old, line);
                assert(line_views(r@) =~= line_views(r_old).push(lv));
                assert(line_views(r@) =~= line_views(r_old) + line_of(raw));
            }
        } else {
            proof {
                assert(line_of(raw) =~= Seq::<LineV>::empty());
                assert(line_views(r@) =~= line_views(r_old) + line_of(raw));
            }
        }
        proof {
            assert(line_views(r@) + split_lines(text@.subrange(next_pos as int, n as int))
                =~= (line_views(r_old) + line_of(raw)) + split_lines(
                text@.subrange(next_pos as int, n as int),
            ));
            assert((line_views(r_old) + line_of(raw)) + split_lines(
                text@.subrange(next_pos as int, n as int),
            ) =~= line_views(r_old) + (line_of(raw) + split_lines(
                text@.subrange(next_pos as int, n as int),
            )));
            assert(line_views(r@) + split_lines(text@.subrange(next_pos as int, n as int))
                == split_lines(text@));
        }
        if next_pos >= n {
            proof {
                lemma_split_empty(text@.subrange(next_pos as int, n as int));
                assert(line_views(r@) + Seq::<LineV>::empty() =~= line_views(r@));
            }
            break;
        }
        pos = next_pos;
    }
    r
}

/// Splitting an empty text yields no lines.
proof fn lemma_split_empty(text: Seq<char>)
    requires
        text.len() == 0,
    ensures
        split_lines(text) == Seq::<LineV>::empty(),
{
    assert(split_lines(text) =~= Seq::<LineV>::empty());
}

proof fn lemma_views_push(ls: Seq<Line>, l: Line)
    ensures
        line_views(ls.push(l)) == line_views(ls).push(l.view()),
{
    assert(line_views(ls.push(l)) =~= line_views(ls).push(l.view()));
}

/// Relates the unfolding of `split_lines` on the suffix starting at `pos`
/// to the segment `[pos..raw_end)` and continuation `next_pos`.
proof fn lemma_find_shift(text: Seq<char>, pos: int, raw_end: int, next_pos: int)
    requires
        0 <= pos <= raw_end <= text.len(),
        next_pos == raw_end + 1 || next_pos == raw_end,
        next_pos == raw_end + 1 ==> raw_end < text.len() && text[raw_end] == '\n'
            && (forall|j: int| pos <= j < raw_end ==> text[j] != '\n'),
        next_pos == raw_end ==> raw_end == text.len() && (forall|j: int|
            pos <= j < text.len() ==> text[j] != '\n'),
    ensures
        split_lines(text.subrange(pos, text.len() as int)) == line_of(
            text.subrange(pos, raw_end),
        ) + split_lines(text.subrange(next_pos, text.len() as int)),
{
    let rest = text.subrange(pos, text.len() as int);
    if next_pos == raw_end + 1 {
        let k = raw_end - pos;
        assert(find_char_from(rest, '\n', 0) == Some(k)) by {
            lemma_find_char_range(rest, '\n', 0);
            assert(rest[k] == '\n');
            assert(forall|j: int| 0 <= j < k ==> rest[j] != '\n');
            match find_char_from(rest, '\n', 0) {
                Some(m) => {
                    if m < k {
                        assert(rest[m] == '\n');
                    }
                    if m > k {
                        assert(rest[k] != '\n');
                    }
                },
                None => {
                    assert(rest[k] != '\n');
                },
            }
        }
        assert(rest.subrange(0, k) =~= text.subrange(pos, raw_end));
        assert(rest.subrange(k + 1, rest.len() as int) =~= text.subrange(
            next_pos,
            text.len() as int,
        ));
    } else {
        assert(find_char_from(rest, '\n', 0) is None) by {
            lemma_find_char_range(rest, '\n', 0);
            match find_char_from(rest, '\n', 0) {
                Some(m) => {
                    assert(rest[m] == '\n');
                },
                None => {},
            }
        }
        assert(rest =~= text.subrange(pos, raw_end));
        assert(split_lines(text.subrange(next_pos, text.len() as int)) =~= Seq::<
            LineV,
        >::empty());
    }
}

/// Text of one line as written out: indent spaces, content, newline.
pub open spec fn line_text(l: LineV) -> Seq<char> {
    Seq::new(l.ind as nat, |i: int| ' ') + l.text + seq!['\n']
}

/// The serialized form of a sequence of lines.
pub open spec fn join_lines(ls: Seq<LineV>) -> Seq<char>
    decreases ls.len(),
{
    if ls.len() == 0 {
        Seq::empty()
    } else {
        line_text(ls[0]) + join_lines(ls.drop_first())
    }
}

/// Writes lines out as text.
pub fn join_lines_exec(ls: &Vec<Line>) -> (r: Vec<char>)
    ensures
        r@ == join_lines(line_views(ls@)),
{
    let mut r: Vec<char> = Vec::new();
    let mut i: usize = 0;
    proof {
        assert(line_views(ls@).subrange(0, ls@.len() as int) =~= line_views(ls@));
        assert(r@ + join_lines(line_views(ls@)) =~= join_lines(line_views(ls@)));
    }
    while i < ls.len()
        invariant
            0 <= i <= ls@.len(),
            r@ + join_lines(line_views(ls@).subrange(i as int, ls@.len() as int))
                == join_lines(line_views(ls@)),
        decreases ls@.len() - i,
    {
        let ghost pre = r@;
        let line = &ls[i];
        let mut k: usize = 0;
        while k < line.indent
            invariant
                0 <= k <= line.indent,
                r@ == pre + Seq::new(k as nat, |j: int| ' '),
            decreases line.indent - k,
        {
            r.push(' ');
            assert(r@ =~= pre + Seq::new((k + 1) as nat, |j: int| ' '));
            k = k + 1;
        }
        let mut c: usize = 0;
        while c < line.content.len()
            invariant
                0 <= c <= line.content@.len(),
                r@ == pre + Seq::new(line.indent as nat, |j: int| ' ')
                    + line.content@.subrange(0, c as int),
            decreases line.content@.len() - c,
        {
            r.push(line.content[c]);
            assert(r@ =~= pre + Seq::new(line.indent as nat, |j: int| ' ')
                + line.content@.subrange(0, (c + 1) as int));
            c = c + 1;
        }
        r.push('\n');
        proof {
            assert(line.content@.subrange(0, line.content@.len() as int) =~= line.content@);
            assert(r@ =~= pre + line_text(ls@[i as int].view()));
            let views = line_views(ls@);
            assert(views.subrange(i as int, ls@.len() as int).drop_first() =~= views.subrange(
                i + 1,
                ls@.len() as int,
            ));
            assert(views.subrange(i as int, ls@.len() as int)[0] == ls@[i as int].view());
            assert(r@ + join_lines(views.subrange(i + 1, ls@.len() as int)) =~= join_lines(
                views,
            ));
        }
        i = i + 1;
    }
    proof {
        assert(line_views(ls@).subrange(ls@.len() as int, ls@.len() as int) =~= Seq::<
            LineV,
        >::empty());
    }
    r
}

} // verus!
