use vstd::prelude::*;
use crate::text::{is_space, spec_is_space, chars_of_str, string_of_chars, views_of};

verus! {

/// Why a command line could not be tokenized.
#[derive(Debug, Clone, Copy, PartialEq, Eq, Structural)]
pub enum ParseError {
    UnclosedQuotes,
    TrailingBackslash,
}

impl ParseError {
    /// The wording the shell reports for this parse failure.
    pub fn message(&self) -> (r: String)
        ensures
            *self is UnclosedQuotes ==> r@ == "unclosed quotes"@,
            *self is TrailingBackslash ==> r@ == "trailing backslash"@,
    {
        match self {
            ParseError::UnclosedQuotes => {
                let mut m = String::new();
                m.append("unclosed quotes");
                m
            },
            ParseError::TrailingBackslash => {
                let mut m = String::new();
                m.append("trailing backslash");
                m
            },
        }
    }
}

/// The tokenizer's running state: the arguments finished so far, the
/// argument being built, and whether a double quote or a backslash is open.
pub ghost struct TokState {
    pub args: Seq<Seq<char>>,
    pub cur: Seq<char>,
    pub in_quotes: bool,
    pub escaped: bool,
}

/// One character of tokenization: a backslash escapes the next character,
/// a double quote toggles grouping and is dropped, blank space outside
/// quotes ends the argument being built, everything else joins it.
pub open spec fn tok_step(st: TokState, c: char) -> TokState {
    if st.escaped {
        TokState { cur: st.cur.push(c), escaped: false, ..st }
    } else if c == '\\' {
        TokState { escaped: true, ..st }
    } else if c == '"' {
        TokState { in_quotes: !st.in_quotes, ..st }
    } else if spec_is_space(c) && !st.in_quotes {
        if st.cur.len() > 0 {
            TokState { args: st.args.push(st.cur), cur: Seq::empty(), ..st }
        } else {
            st
        }
    } else {
        TokState { cur: st.cur.push(c), ..st }
    }
}

pub open spec fn tok_init() -> TokState {
    TokState { args: Seq::empty(), cur: Seq::empty(), in_quotes: false, escaped: false }
}

/// The tokenizer run over a whole input, character by character.
pub open spec fn tok_run(s: Seq<char>) -> TokState
    decreases s.len(),
{
    if s.len() == 0 {
        tok_init()
    } else {
        tok_step(tok_run(s.drop_last()), s.last())
    }
}

/// What tokenizing an input yields: its arguments in order, or the parse
/// error, an unclosed double quote winning over a trailing backslash.
pub open spec fn spec_parse_args(s: Seq<char>) -> Result<Seq<Seq<char>>, ParseError> {
    let st = tok_run(s);
    if st.in_quotes {
        Err(ParseError::UnclosedQuotes)
    } else if st.escaped {
        Err(ParseError::TrailingBackslash)
    } else if st.cur.len() > 0 {
        Ok(st.args.push(st.cur))
    } else {
        Ok(st.args)
    }
}

/// Splits a command line into arguments, honouring double-quote grouping
/// and backslash escapes.
pub fn parse_args(input: &str) -> (r: Result<Vec<String>, ParseError>)
    ensures
        match r {
            Ok(args) => spec_parse_args(input@) == Ok::<Seq<Seq<char>>, ParseError>(
                views_of(args@),
            ),
            Err(e) => spec_parse_args(input@) == Err::<Seq<Seq<char>>, ParseError>(e),
        },
{
    let cs = chars_of_str(input);
    let n = cs.len();
    let mut args: Vec<String> = Vec::new();
    let mut cur: Vec<char> = Vec::new();
    let mut in_quotes = false;
    let mut escaped = false;
    let mut i: usize = 0;
    while i < n
        invariant
            i <= n,
            n == cs@.len(),
            cs@ == input@,
            ({
                let st = tok_run(cs@.subrange(0, i as int));
                views_of(args@) == st.args && cur@ == st.cur && in_quotes == st.in_quotes
                    && escaped == st.escaped
            }),
        decreases n - i,
    {
        let ghost pre = cs@.subrange(0, i as int);
        proof {
            assert(cs@.subrange(0, i + 1).drop_last() =~= pre);
            assert(cs@.subrange(0, i + 1).last() == cs@[i as int]);
        }
        let ghost a0 = args@;
        let c = cs[i];
        if escaped {
            cur.push(c);
            escaped = false;
        } else if c == '\\' {
            escaped = true;
        } else if c == '"' {
            in_quotes = !in_quotes;
        } else if is_space(c) && !in_quotes {
            if cur.len() > 0 {
                let arg = string_of_chars(&cur);
                args.push(arg);
                cur = Vec::new();
                proof {
                    assert(views_of(args@) =~= views_of(a0).push(arg@));
                }
            }
        } else {
            cur.push(c);
        }
        i = i + 1;
    }
    proof {
        assert(cs@.subrange(0, n as int) =~= cs@);
    }
    if in_quotes {
        return Err(ParseError::UnclosedQuotes);
    }
    if escaped {
        return Err(ParseError::TrailingBackslash);
    }
    if cur.len() > 0 {
        let ghost a0 = args@;
        let arg = string_of_chars(&cur);
        args.push(arg);
        proof {
            assert(views_of(args@) =~= views_of(a0).push(arg@));
        }
    }
    Ok(args)
}

} // verus!
