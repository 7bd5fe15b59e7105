use vstd::prelude::*;
use vstd::string::*;
use crate::shell::Shell;
use crate::text::{push_char, views_of};

verus! {

/// The arguments joined with single spaces, as `echo` prints them.
pub open spec fn join_spaces(args: Seq<Seq<char>>) -> Seq<char>
    decreases args.len(),
{
    if args.len() == 0 {
        Seq::empty()
    } else if args.len() == 1 {
        args[0]
    } else {
        join_spaces(args.drop_last()) + seq![' '] + args.last()
    }
}

/// A line for the output sink: the text with its trailing newline.
pub fn echoln(arg: &str) -> (r: String)
    ensures
        r@ == arg@ + seq!['\n'],
{
    let mut out = String::new();
    out.append(arg);
    push_char(&mut out, '\n');
    out
}

impl Shell {
    /// The `echo` line: the arguments joined with single spaces, with the
    /// trailing newline of every output line.
    pub fn handle_echo_command(args: Vec<String>) -> (r: String)
        ensures
            r@ == join_spaces(views_of(args@)) + seq!['\n'],
    {
        let mut out = String::new();
        let n = args.len();
        let mut i: usize = 0;
        while i < n
            invariant
                i <= n,
                n == args@.len(),
                out@ == join_spaces(views_of(args@.subrange(0, i as int))),
            decreases n - i,
        {
            if i > 0 {
                push_char(&mut out, ' ');
            }
            out.append(args[i].as_str());
            proof {
                let cur = views_of(args@.subrange(0, i + 1));
                assert(args@.subrange(0, i + 1).drop_last() =~= args@.subrange(0, i as int));
                assert(cur.drop_last() =~= views_of(args@.subrange(0, i as int)));
                assert(cur.last() == args@[i as int]@);
                if i == 0 {
                    assert(out@ =~= join_spaces(cur));
                } else {
                    assert(out@ =~= join_spaces(cur.drop_last()) + seq![' '] + cur.last());
                }
            }
            i = i + 1;
        }
        proof {
            assert(args@.subrange(0, n as int) =~= args@);
        }
        push_char(&mut out, '\n');
        out
    }
}

} // verus!
