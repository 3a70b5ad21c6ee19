//! Building the textual form of a command-line call: the binary and its
//! arguments joined with spaces, an argument holding a space wrapped in
//! double quotes.

use vstd::prelude::*;
use crate::text::{find_char_from, chars_of, string_of, contains_char, push_chars};
use crate::strsort::strs_v;

verus! {

/// An argument as shown: quoted when it holds a space.
pub open spec fn shown_arg(a: Seq<char>) -> Seq<char> {
    if find_char_from(a, ' ', 0) is Some {
        seq!['"'] + a + seq!['"']
    } else {
        a
    }
}

/// Arguments joined with single spaces.
pub open spec fn joined_args(args: Seq<Seq<char>>) -> Seq<char>
    decreases args,
{
    if args.len() == 0 {
        Seq::empty()
    } else if args.len() == 1 {
        shown_arg(args[0])
    } else {
        shown_arg(args[0]) + seq![' '] + joined_args(args.drop_first())
    }
}

/// The full command line: binary, space, joined arguments.
pub open spec fn cmd_line(bin: Seq<char>, args: Seq<Seq<char>>) -> Seq<char> {
    bin + seq![' '] + joined_args(args)
}

/// The string a command-line call would show as.
pub fn cmd_call_to_string(bin: &str, args: &Vec<String>) -> (r: String)
    ensures
        r@ == cmd_line(bin@, strs_v(args@)),
{
    let ghost avs = strs_v(args@);
    let mut out: Vec<char> = chars_of(bin);
    out.push(' ');
    proof {
        assert(avs.subrange(0, avs.len() as int) =~= avs);
        assert(out@ =~= bin@ + seq![' ']);
        assert(out@ + joined_args(avs) =~= cmd_line(bin@, avs));
    }
    let mut i: usize = 0;
    while i < args.len()
        invariant
            0 <= i <= args@.len(),
            avs == strs_v(args@),
            avs.len() == args@.len(),
            out@ + joined_args(avs.subrange(i as int, avs.len() as int)) == cmd_line(
                bin@,
                avs,
            ),
        decreases args@.len() - i,
    {
        proof {
            let suf = avs.subrange(i as int, avs.len() as int);
            assert(suf[0] == avs[i as int]);
            assert(suf.drop_first() =~= avs.subrange(i + 1, avs.len() as int));
            assert(avs[i as int] == args@[i as int]@);
        }
        let ghost out_pre = out@;
        let a = chars_of(args[i].as_str());
        if contains_char(&a, ' ') {
            out.push('"');
            push_chars(&mut out, &a);
            out.push('"');
            proof {
                assert(out@ =~= out_pre + shown_arg(avs[i as int]));
            }
        } else {
            push_chars(&mut out, &a);
            proof {
                assert(out@ =~= out_pre + shown_arg(avs[i as int]));
            }
        }
        if i + 1 < args.len() {
            out.push(' ');
            proof {
                assert(out@ =~= out_pre + (shown_arg(avs[i as int]) + seq![' ']));
                assert(out@ + joined_args(avs.subrange(i + 1, avs.len() as int))
                    =~= cmd_line(bin@, avs));
            }
        } else {
            proof {
                assert(avs.subrange(i + 1, avs.len() as int) =~= Seq::<Seq<char>>::empty());
                assert(out@ + joined_args(avs.subrange(i + 1, avs.len() as int))
                    =~= cmd_line(bin@, avs));
            }
        }
        i = i + 1;
    }
    proof {
        assert(joined_args(avs.subrange(i as int, avs.len() as int)) =~= Seq::<
            char,
        >::empty());
        assert(out@ =~= cmd_line(bin@, avs));
    }
    string_of(&out)
}

} // verus!
