use vstd::prelude::*;
use crate::text::{chars_of_str, extend_from, spec_trim, string_of_chars, trim_chars};

verus! {

/// A well-formed absolute path: rooted at `/`, non-empty, and without a
/// trailing slash except for the root itself.
pub open spec fn wf_abs_path(p: Seq<char>) -> bool {
    p.len() >= 1 && p[0] == '/' && (p.len() == 1 || p[p.len() - 1] != '/')
}

/// The index of the last `/` in the string, or -1 when there is none.
pub open spec fn last_slash_idx(s: Seq<char>) -> int
    decreases s.len(),
{
    if s.len() == 0 {
        -1
    } else if s[s.len() - 1] == '/' {
        s.len() - 1
    } else {
        last_slash_idx(s.drop_last())
    }
}

/// The path with its last segment removed: everything before the last
/// slash, or the empty string when the path has no slash at all.
pub open spec fn pop_segment(s: Seq<char>) -> Seq<char> {
    if last_slash_idx(s) >= 0 {
        s.subrange(0, last_slash_idx(s))
    } else {
        Seq::empty()
    }
}

/// Joining a relative name onto a directory: the root gets `/` + name,
/// every other directory gets directory + `/` + name.
pub open spec fn join_under(cwd: Seq<char>, arg: Seq<char>) -> Seq<char> {
    if cwd.len() == 1 && cwd[0] == '/' {
        seq!['/'] + arg
    } else {
        cwd + seq!['/'] + arg
    }
}

/// The resolution rules on an already-trimmed argument, in priority order:
/// empty means home; a leading `/` means the argument itself; a leading `~`
/// has the `~` replaced by the home directory; `../x` pops one segment off
/// the working directory and appends `x`; a bare `..` prefix pops one
/// segment; anything else is joined under the working directory with a
/// leading `./` stripped.  An empty outcome denotes the root.
pub open spec fn spec_resolve_trimmed(raw: Seq<char>, cwd: Seq<char>, home: Seq<char>) -> Seq<
    char,
> {
    let r = if raw.len() == 0 {
        home
    } else if raw[0] == '/' {
        raw
    } else if raw[0] == '~' {
        home + raw.skip(1)
    } else if raw.len() >= 3 && raw[0] == '.' && raw[1] == '.' && raw[2] == '/' && !(raw.len() >= 4
        && raw[3] == ' ') {
        pop_segment(cwd) + seq!['/'] + raw.skip(3)
    } else if raw.len() >= 2 && raw[0] == '.' && raw[1] == '.' {
        pop_segment(cwd)
    } else {
        let arg = if raw.len() >= 2 && raw[0] == '.' && raw[1] == '/' {
            raw.skip(2)
        } else {
            raw
        };
        join_under(cwd, arg)
    };
    if r.len() == 0 {
        seq!['/']
    } else {
        r
    }
}

/// What a raw path argument denotes, given the current working directory
/// and the home directory: the trimmed argument put through the rules.
pub open spec fn spec_resolve(raw: Seq<char>, cwd: Seq<char>, home: Seq<char>) -> Seq<char> {
    spec_resolve_trimmed(spec_trim(raw), cwd, home)
}

/// Turns a raw path argument into the absolute path it denotes.
pub fn resolve(raw: &str, cwd: &str, home: &str) -> (r: String)
    ensures
        r@ == spec_resolve(raw@, cwd@, home@),
{
    let t = trim_chars(&chars_of_str(raw));
    let cw = chars_of_str(cwd);
    let hm = chars_of_str(home);
    let mut out: Vec<char>;
    if t.len() == 0 {
        out = hm;
    } else if t[0] == '/' {
        out = t;
    } else if t[0] == '~' {
        out = hm;
        extend_from(&mut out, &t, 1);
    } else if t.len() >= 3 && t[0] == '.' && t[1] == '.' && t[2] == '/' && !(t.len() >= 4 && t[3]
        == ' ') {
        out = pop_segment_chars(&cw);
        out.push('/');
        proof {
            assert(out@ =~= pop_segment(cw@) + seq!['/']);
        }
        extend_from(&mut out, &t, 3);
    } else if t.len() >= 2 && t[0] == '.' && t[1] == '.' {
        out = pop_segment_chars(&cw);
    } else {
        let start: usize = if t.len() >= 2 && t[0] == '.' && t[1] == '/' {
            2
        } else {
            0
        };
        if cw.len() == 1 && cw[0] == '/' {
            out = Vec::new();
            out.push('/');
            proof {
                assert(out@ =~= seq!['/']);
            }
        } else {
            out = cw;
            out.push('/');
            proof {
                assert(out@ =~= cw@ + seq!['/']);
            }
        }
        extend_from(&mut out, &t, start);
        proof {
            if start == 0 {
                assert(t@.skip(0) =~= t@);
            }
        }
    }
    if out.len() == 0 {
        out.push('/');
        proof {
            assert(out@ =~= seq!['/']);
        }
    }
    string_of_chars(&out)
}

/// The display form of an absolute path: the home-directory prefix
/// collapsed to `~` when the path lies under it, the path itself otherwise.
pub open spec fn spec_display_path(p: Seq<char>, home: Seq<char>) -> Seq<char> {
    if home.len() <= p.len() && p.subrange(0, home.len() as int) == home {
        seq!['~'] + p.skip(home.len() as int)
    } else {
        p
    }
}

/// True when `pre` is a leading prefix of `s`, character for character.
pub fn chars_start_with(s: &Vec<char>, pre: &Vec<char>) -> (r: bool)
    ensures
        r == (pre@.len() <= s@.len() && s@.subrange(0, pre@.len() as int) == pre@),
{
    if pre.len() > s.len() {
        return false;
    }
    let mut i: usize = 0;
    while i < pre.len()
        invariant
            i <= pre@.len() <= s@.len(),
            forall|j: int| 0 <= j < i ==> s@[j] == pre@[j],
        decreases pre.len() - i,
    {
        if s[i] != pre[i] {
            proof {
                assert(s@.subrange(0, pre@.len() as int)[i as int] != pre@[i as int]);
            }
            return false;
        }
        i = i + 1;
    }
    proof {
        assert(s@.subrange(0, pre@.len() as int) =~= pre@);
    }
    true
}

/// Renders an absolute path for the prompt, with the home prefix as `~`.
pub fn display_path(p: &str, home: &str) -> (r: String)
    ensures
        r@ == spec_display_path(p@, home@),
{
    let pv = chars_of_str(p);
    let hv = chars_of_str(home);
    let is_prefix = chars_start_with(&pv, &hv);
    if is_prefix {
        let mut out: Vec<char> = Vec::new();
        out.push('~');
        proof {
            assert(out@ =~= seq!['~']);
        }
        extend_from(&mut out, &pv, hv.len());
        string_of_chars(&out)
    } else {
        string_of_chars(&pv)
    }
}

pub proof fn lemma_last_slash_at(s: Seq<char>, i: int)
    requires
        0 <= i < s.len(),
        s[i] == '/',
        forall|j: int| i < j < s.len() ==> s[j] != '/',
    ensures
        last_slash_idx(s) == i,
    decreases s.len(),
{
    if i == s.len() - 1 {
    } else {
        lemma_last_slash_at(s.drop_last(), i);
    }
}

pub proof fn lemma_no_slash(s: Seq<char>)
    requires
        forall|j: int| 0 <= j < s.len() ==> s[j] != '/',
    ensures
        last_slash_idx(s) == -1,
    decreases s.len(),
{
    if s.len() > 0 {
        lemma_no_slash(s.drop_last());
    }
}

/// A plain name: non-empty and free of `/`.
pub open spec fn plain_name(x: Seq<char>) -> bool {
    x.len() > 0 && forall|j: int| 0 <= j < x.len() ==> x[j] != '/'
}

/// Popping the last segment off a one-level descent returns to where the
/// descent started.
pub proof fn lemma_pop_join(cwd: Seq<char>, x: Seq<char>)
    requires
        wf_abs_path(cwd),
        plain_name(x),
    ensures
        cwd.len() == 1 ==> pop_segment(join_under(cwd, x)) =~= Seq::<char>::empty(),
        cwd.len() > 1 ==> pop_segment(join_under(cwd, x)) =~= cwd,
{
    let d = join_under(cwd, x);
    if cwd.len() == 1 {
        assert(d == seq!['/'] + x);
        assert(d[0] == '/');
        assert(forall|j: int| 0 < j < d.len() ==> d[j] == x[j - 1] && x[j - 1] != '/');
        lemma_last_slash_at(d, 0);
    } else {
        assert(d == cwd + seq!['/'] + x);
        assert(d[cwd.len() as int] == '/');
        assert(forall|j: int|
            cwd.len() < j < d.len() ==> d[j] == x[j - cwd.len() - 1] && x[j - cwd.len() - 1]
                != '/');
        lemma_last_slash_at(d, cwd.len() as int);
        assert(d.subrange(0, cwd.len() as int) =~= cwd);
    }
}

/// Resolving `..` from a directory one level below `cwd` comes back to
/// `cwd`: descending and then resolving the parent is the identity on the
/// absolute working directory, whatever form of input the descent used.
pub proof fn lemma_resolve_dotdot_after_descent(cwd: Seq<char>, x: Seq<char>, home: Seq<char>)
    requires
        wf_abs_path(cwd),
        plain_name(x),
    ensures
        spec_resolve(".."@, join_under(cwd, x), home) == cwd,
{
    reveal_strlit("..");
    let raw = ".."@;
    assert(raw.len() == 2 && raw[0] == '.' && raw[1] == '.');
    assert(spec_trim(raw) == raw) by {
        assert(!crate::text::spec_is_space(raw[0]));
        assert(crate::text::spec_trim_start(raw) == raw);
        assert(!crate::text::spec_is_space(raw[1]));
        assert(crate::text::spec_trim_end(raw) == raw);
    }
    lemma_pop_join(cwd, x);
    if cwd.len() == 1 {
        assert(spec_resolve_trimmed(raw, join_under(cwd, x), home) =~= seq!['/']);
        assert(cwd =~= seq!['/']);
    }
}

/// A plain relative name resolves to a one-level descent, and `..` from
/// there comes back: the round trip of the resolver on a descend-and-return
/// pair of inputs is the identity on the working directory.
pub proof fn lemma_relative_round_trip(x: Seq<char>, cwd: Seq<char>, home: Seq<char>)
    requires
        wf_abs_path(cwd),
        plain_name(x),
        x[0] != '~',
        !crate::text::spec_is_space(x[0]),
        !crate::text::spec_is_space(x[x.len() - 1]),
        !(x.len() >= 2 && x[0] == '.' && (x[1] == '.' || x[1] == '/')),
        !(x.len() == 2 && x[0] == '.' && x[1] == '.'),
    ensures
        spec_resolve(x, cwd, home) == join_under(cwd, x),
        spec_resolve(".."@, spec_resolve(x, cwd, home), home) == cwd,
{
    assert(spec_trim(x) == x) by {
        assert(crate::text::spec_trim_start(x) == x);
        assert(crate::text::spec_trim_end(x) == x);
    }
    assert(join_under(cwd, x).len() > 0);
    assert(spec_resolve(x, cwd, home) == join_under(cwd, x));
    lemma_resolve_dotdot_after_descent(cwd, x, home);
}

/// Removes the last segment of a path, as `pop_segment` describes.
pub fn pop_segment_chars(v: &Vec<char>) -> (r: Vec<char>)
    ensures
        r@ == pop_segment(v@),
{
    let mut k: usize = v.len();
    while k > 0
        invariant
            k <= v@.len(),
            forall|j: int| k <= j < v@.len() ==> v@[j] != '/',
        decreases k,
    {
        if v[k - 1] == '/' {
            proof {
                lemma_last_slash_at(v@, k - 1);
            }
            let mut r: Vec<char> = Vec::new();
            let mut i: usize = 0;
            while i < k - 1
                invariant
                    i <= k - 1,
                    k - 1 < v@.len(),
                    r@ == v@.subrange(0, i as int),
                decreases k - 1 - i,
            {
                r.push(v[i]);
                proof {
                    assert(v@.subrange(0, i + 1) =~= v@.subrange(0, i as int).push(v@[i as int]));
                }
                i = i + 1;
            }
            return r;
        }
        k = k - 1;
    }
    proof {
        lemma_no_slash(v@);
    }
    Vec::new()
}

} // verus!
