use vstd::prelude::*;
use vstd::string::*;
use vstd::seq_lib::group_to_multiset_ensures;
use crate::text::{chars_of_str, string_of_chars, str_eq};

verus! {

broadcast use group_to_multiset_ensures;

/// The flags `ls` knows: the long listing, showing dot-files, and the
/// classify suffix.
#[derive(Debug, Clone, Copy, PartialEq, Eq, Structural)]
pub enum LsFlag {
    LongFormat,
    All,
    Classify,
}

/// Which flag a single option character names.
pub open spec fn spec_flag_of_char(c: char) -> Option<LsFlag> {
    if c == 'l' {
        Some(LsFlag::LongFormat)
    } else if c == 'a' {
        Some(LsFlag::All)
    } else if c == 'F' {
        Some(LsFlag::Classify)
    } else {
        None
    }
}

/// Which flag a long option names.
pub open spec fn spec_flag_of_long(o: Seq<char>) -> Option<LsFlag> {
    if o == "long"@ {
        Some(LsFlag::LongFormat)
    } else if o == "all"@ {
        Some(LsFlag::All)
    } else if o == "classify"@ {
        Some(LsFlag::Classify)
    } else {
        None
    }
}

impl LsFlag {
    /// The flag a short option character names, if any.
    pub fn from_char(c: char) -> (r: Option<LsFlag>)
        ensures
            r == spec_flag_of_char(c),
    {
        match c {
            'l' => Some(LsFlag::LongFormat),
            'a' => Some(LsFlag::All),
            'F' => Some(LsFlag::Classify),
            _ => None,
        }
    }

    /// The flag a long option names, if any.
    pub fn from_long_option(option: &str) -> (r: Option<LsFlag>)
        ensures
            r == spec_flag_of_long(option@),
    {
        if str_eq(option, "long") {
            Some(LsFlag::LongFormat)
        } else if str_eq(option, "all") {
            Some(LsFlag::All)
        } else if str_eq(option, "classify") {
            Some(LsFlag::Classify)
        } else {
            None
        }
    }
}

/// A flag list with one more flag, kept free of repeats.
pub open spec fn add_flag(flags: Seq<LsFlag>, f: LsFlag) -> Seq<LsFlag> {
    if flags.contains(f) {
        flags
    } else {
        flags.push(f)
    }
}

/// The flags that a run of short option characters switches on.
pub open spec fn add_short_flags(flags: Seq<LsFlag>, cs: Seq<char>) -> Seq<LsFlag>
    decreases cs.len(),
{
    if cs.len() == 0 {
        flags
    } else {
        let prev = add_short_flags(flags, cs.drop_last());
        match spec_flag_of_char(cs.last()) {
            Some(f) => add_flag(prev, f),
            None => prev,
        }
    }
}

/// One argument folded into the flags and paths gathered so far: `--x`
/// consults the long options (and is dropped when `x` is missing or too
/// short), `-xyz` consults each character, and anything else is a path.
pub open spec fn ls_arg_step(flags: Seq<LsFlag>, paths: Seq<Seq<char>>, a: Seq<char>) -> (
    Seq<LsFlag>,
    Seq<Seq<char>>,
) {
    if a.len() >= 2 && a[0] == '-' && a[1] == '-' {
        if a.len() > 2 {
            match spec_flag_of_long(a.skip(2)) {
                Some(f) => (add_flag(flags, f), paths),
                None => (flags, paths),
            }
        } else {
            (flags, paths)
        }
    } else if a.len() >= 1 && a[0] == '-' {
        if a.len() > 1 {
            (add_short_flags(flags, a.skip(1)), paths)
        } else {
            (flags, paths)
        }
    } else {
        (flags, paths.push(a))
    }
}

/// The flags and paths of an `ls` invocation, before the default path.
pub open spec fn ls_args_fold(args: Seq<Seq<char>>) -> (Seq<LsFlag>, Seq<Seq<char>>)
    decreases args.len(),
{
    if args.len() == 0 {
        (Seq::empty(), Seq::empty())
    } else {
        let prev = ls_args_fold(args.drop_last());
        ls_arg_step(prev.0, prev.1, args.last())
    }
}

/// The flags and paths of an `ls` invocation: the fold over the arguments,
/// with `.` standing in when no path was named.
pub open spec fn spec_parse_ls_args(args: Seq<Seq<char>>) -> (Seq<LsFlag>, Seq<Seq<char>>) {
    let r = ls_args_fold(args);
    if r.1.len() == 0 {
        (r.0, seq!["."@])
    } else {
        r
    }
}

/// True when the flag list holds `f`.
pub fn flags_contain(flags: &Vec<LsFlag>, f: LsFlag) -> (r: bool)
    ensures
        r == flags@.contains(f),
{
    let mut k: usize = 0;
    while k < flags.len()
        invariant
            k <= flags@.len(),
            forall|j: int| 0 <= j < k ==> flags@[j] != f,
        decreases flags.len() - k,
    {
        if flags[k] == f {
            return true;
        }
        k = k + 1;
    }
    false
}

/// Splits the `ls` arguments into recognized flags (without repeats) and
/// path arguments, with `.` as the path when none was given.
pub fn parse_ls_args(args: Vec<String>) -> (r: (Vec<LsFlag>, Vec<String>))
    ensures
        ({
            let s = spec_parse_ls_args(crate::text::views_of(args@));
            r.0@ == s.0 && crate::text::views_of(r.1@) == s.1
        }),
{
    let mut flags: Vec<LsFlag> = Vec::new();
    let mut paths: Vec<String> = Vec::new();
    let n = args.len();
    let mut i: usize = 0;
    while i < n
        invariant
            i <= n,
            n == args@.len(),
            ({
                let s = ls_args_fold(crate::text::views_of(args@.subrange(0, i as int)));
                flags@ == s.0 && crate::text::views_of(paths@) == s.1
            }),
        decreases n - i,
    {
        proof {
            let cur = crate::text::views_of(args@.subrange(0, i + 1));
            assert(args@.subrange(0, i + 1).drop_last() =~= args@.subrange(0, i as int));
            assert(cur.drop_last() =~= crate::text::views_of(args@.subrange(0, i as int)));
            assert(cur.last() == args@[i as int]@);
        }
        let av = chars_of_str(args[i].as_str());
        if av.len() >= 2 && av[0] == '-' && av[1] == '-' {
            if av.len() > 2 {
                let opt = string_of_chars(&av);
                let option = opt.as_str().substring_char(2, av.len());
                match LsFlag::from_long_option(option) {
                    Some(f) => {
                        proof {
                            assert(option@ =~= av@.skip(2));
                        }
                        if !flags_contain(&flags, f) {
                            flags.push(f);
                        }
                    },
                    None => {
                        proof {
                            assert(option@ =~= av@.skip(2));
                        }
                    },
                }
            }
        } else if av.len() >= 1 && av[0] == '-' {
            if av.len() > 1 {
                let mut c: usize = 1;
                while c < av.len()
                    invariant
                        1 <= c <= av@.len(),
                        flags@ == add_short_flags(
                            ls_args_fold(
                                crate::text::views_of(args@.subrange(0, i as int)),
                            ).0,
                            av@.subrange(1, c as int),
                        ),
                    decreases av.len() - c,
                {
                    proof {
                        assert(av@.subrange(1, c + 1).drop_last() =~= av@.subrange(1, c as int));
                        assert(av@.subrange(1, c + 1).last() == av@[c as int]);
                    }
                    match LsFlag::from_char(av[c]) {
                        Some(f) => {
                            if !flags_contain(&flags, f) {
                                flags.push(f);
                            }
                        },
                        None => {},
                    }
                    c = c + 1;
                }
                proof {
                    assert(av@.subrange(1, av@.len() as int) =~= av@.skip(1));
                }
            }
        } else {
            let ghost p0 = paths@;
            let p = string_of_chars(&av);
            paths.push(p);
            proof {
                assert(crate::text::views_of(paths@) =~= crate::text::views_of(p0).push(av@));
            }
        }
        i = i + 1;
    }
    proof {
        assert(args@.subrange(0, n as int) =~= args@);
    }
    if paths.len() == 0 {
        let p = String::from_str(".");
        paths.push(p);
        proof {
            assert(crate::text::views_of(paths@) =~= seq!["."@]);
        }
    }
    (flags, paths)
}


/// The leading character of the long-format permission string: the file
/// type as `ls` shows it.
pub open spec fn spec_file_type_char(mode: u32) -> char {
    let t = mode & 0o170000;
    if t == 0o040000 {
        'd'
    } else if t == 0o120000 {
        'l'
    } else if t == 0o020000 {
        'c'
    } else if t == 0o060000 {
        'b'
    } else if t == 0o010000 {
        'p'
    } else if t == 0o140000 {
        's'
    } else {
        '-'
    }
}

/// One permission character: `c` when the bit is set, `-` otherwise.
pub open spec fn spec_perm(mode: u32, bit: u32, c: char) -> char {
    if mode & bit != 0 {
        c
    } else {
        '-'
    }
}

/// The ten-character permission string: the type character followed by the
/// read, write and execute bits of user, group and other.
pub open spec fn spec_mode_string(mode: u32) -> Seq<char> {
    seq![
        spec_file_type_char(mode),
        spec_perm(mode, 0o400, 'r'),
        spec_perm(mode, 0o200, 'w'),
        spec_perm(mode, 0o100, 'x'),
        spec_perm(mode, 0o040, 'r'),
        spec_perm(mode, 0o020, 'w'),
        spec_perm(mode, 0o010, 'x'),
        spec_perm(mode, 0o004, 'r'),
        spec_perm(mode, 0o002, 'w'),
        spec_perm(mode, 0o001, 'x'),
    ]
}

/// The file-type character of a mode word.
pub fn get_file_type(mode: u32) -> (r: char)
    ensures
        r == spec_file_type_char(mode),
{
    let t = mode & 0o170000;
    if t == 0o040000 {
        'd'
    } else if t == 0o120000 {
        'l'
    } else if t == 0o020000 {
        'c'
    } else if t == 0o060000 {
        'b'
    } else if t == 0o010000 {
        'p'
    } else if t == 0o140000 {
        's'
    } else {
        '-'
    }
}

fn perm_char(mode: u32, bit: u32, c: char) -> (r: char)
    ensures
        r == spec_perm(mode, bit, c),
{
    if mode & bit != 0 {
        c
    } else {
        '-'
    }
}

/// Renders the ten-character permission string of a mode word.
pub fn file_mode_string(mode: u32) -> (r: String)
    ensures
        r@ == spec_mode_string(mode),
{
    let mut v: Vec<char> = Vec::new();
    v.push(get_file_type(mode));
    v.push(perm_char(mode, 0o400, 'r'));
    v.push(perm_char(mode, 0o200, 'w'));
    v.push(perm_char(mode, 0o100, 'x'));
    v.push(perm_char(mode, 0o040, 'r'));
    v.push(perm_char(mode, 0o020, 'w'));
    v.push(perm_char(mode, 0o010, 'x'));
    v.push(perm_char(mode, 0o004, 'r'));
    v.push(perm_char(mode, 0o002, 'w'));
    v.push(perm_char(mode, 0o001, 'x'));
    proof {
        assert(v@ =~= spec_mode_string(mode));
    }
    string_of_chars(&v)
}

/// An upper-case basic letter folded to lower case; every other character
/// stands as it is.  The sort key ignores case this way.
pub open spec fn spec_lower(c: char) -> char {
    if c == 'A' { 'a' } else if c == 'B' { 'b' } else if c == 'C' { 'c' }
    else if c == 'D' { 'd' } else if c == 'E' { 'e' } else if c == 'F' { 'f' }
    else if c == 'G' { 'g' } else if c == 'H' { 'h' } else if c == 'I' { 'i' }
    else if c == 'J' { 'j' } else if c == 'K' { 'k' } else if c == 'L' { 'l' }
    else if c == 'M' { 'm' } else if c == 'N' { 'n' } else if c == 'O' { 'o' }
    else if c == 'P' { 'p' } else if c == 'Q' { 'q' } else if c == 'R' { 'r' }
    else if c == 'S' { 's' } else if c == 'T' { 't' } else if c == 'U' { 'u' }
    else if c == 'V' { 'v' } else if c == 'W' { 'w' } else if c == 'X' { 'x' }
    else if c == 'Y' { 'y' } else if c == 'Z' { 'z' } else { c }
}

/// A string folded to lower case, character by character.
pub open spec fn spec_lower_seq(s: Seq<char>) -> Seq<char> {
    Seq::new(s.len(), |i: int| spec_lower(s[i]))
}

pub fn lower_char(c: char) -> (r: char)
    ensures
        r == spec_lower(c),
{
    if 'A' <= c && c <= 'Z' {
        match c {
            'A' => 'a', 'B' => 'b', 'C' => 'c', 'D' => 'd', 'E' => 'e', 'F' => 'f',
            'G' => 'g', 'H' => 'h', 'I' => 'i', 'J' => 'j', 'K' => 'k', 'L' => 'l',
            'M' => 'm', 'N' => 'n', 'O' => 'o', 'P' => 'p', 'Q' => 'q', 'R' => 'r',
            'S' => 's', 'T' => 't', 'U' => 'u', 'V' => 'v', 'W' => 'w', 'X' => 'x',
            'Y' => 'y', 'Z' => 'z',
            _ => c,
        }
    } else {
        c
    }
}

pub fn lower_chars(v: &Vec<char>) -> (r: Vec<char>)
    ensures
        r@ == spec_lower_seq(v@),
{
    let mut r: Vec<char> = Vec::new();
    let mut i: usize = 0;
    while i < v.len()
        invariant
            i <= v@.len(),
            r@ == spec_lower_seq(v@).subrange(0, i as int),
        decreases v.len() - i,
    {
        r.push(lower_char(v[i]));
        proof {
            assert(spec_lower_seq(v@).subrange(0, i + 1) =~= spec_lower_seq(v@).subrange(
                0,
                i as int,
            ).push(spec_lower(v@[i as int])));
        }
        i = i + 1;
    }
    proof {
        assert(spec_lower_seq(v@).subrange(0, v@.len() as int) =~= spec_lower_seq(v@));
    }
    r
}

/// `a` comes no later than `b` in the listing order: plain lexicographic
/// comparison by code point, the way the folded keys are compared.
pub open spec fn lex_le(a: Seq<char>, b: Seq<char>) -> bool
    decreases a.len(),
{
    if a.len() == 0 {
        true
    } else if b.len() == 0 {
        false
    } else if a[0] == b[0] {
        lex_le(a.skip(1), b.skip(1))
    } else {
        (a[0] as u32) < (b[0] as u32)
    }
}

pub proof fn lemma_lex_refl(a: Seq<char>)
    ensures
        lex_le(a, a),
    decreases a.len(),
{
    if a.len() > 0 {
        lemma_lex_refl(a.skip(1));
    }
}

pub proof fn lemma_lex_total(a: Seq<char>, b: Seq<char>)
    ensures
        lex_le(a, b) || lex_le(b, a),
    decreases a.len(),
{
    if a.len() > 0 && b.len() > 0 {
        if a[0] == b[0] {
            lemma_lex_total(a.skip(1), b.skip(1));
        } else {
            assert((a[0] as u32) != (b[0] as u32)) by {
                vstd::utf8::char_u32_cast(a[0], a[0] as u32);
                vstd::utf8::char_u32_cast(b[0], b[0] as u32);
            }
        }
    }
}

pub proof fn lemma_lex_trans(a: Seq<char>, b: Seq<char>, c: Seq<char>)
    requires
        lex_le(a, b),
        lex_le(b, c),
    ensures
        lex_le(a, c),
    decreases a.len(),
{
    if a.len() > 0 && b.len() > 0 && c.len() > 0 {
        if a[0] == b[0] && b[0] == c[0] {
            lemma_lex_trans(a.skip(1), b.skip(1), c.skip(1));
        }
    }
}

/// True when `a` comes no later than `b`.
pub fn lex_le_chars(a: &Vec<char>, b: &Vec<char>) -> (r: bool)
    ensures
        r == lex_le(a@, b@),
{
    let n = if a.len() < b.len() {
        a.len()
    } else {
        b.len()
    };
    let mut i: usize = 0;
    proof {
        assert(a@.skip(0) =~= a@);
        assert(b@.skip(0) =~= b@);
    }
    while i < n
        invariant
            i <= n,
            n == if a@.len() < b@.len() { a@.len() } else { b@.len() },
            forall|j: int| 0 <= j < i ==> a@[j] == b@[j],
            lex_le(a@, b@) == lex_le(a@.skip(i as int), b@.skip(i as int)),
        decreases n - i,
    {
        let ghost ai = a@.skip(i as int);
        let ghost bi = b@.skip(i as int);
        if a[i] != b[i] {
            proof {
                assert(ai[0] == a@[i as int] && bi[0] == b@[i as int]);
            }
            return (a[i] as u32) < (b[i] as u32);
        }
        proof {
            assert(ai[0] == bi[0]);
            assert(ai.skip(1) =~= a@.skip(i + 1));
            assert(bi.skip(1) =~= b@.skip(i + 1));
        }
        i = i + 1;
    }
    proof {
        let ai = a@.skip(i as int);
        let bi = b@.skip(i as int);
        if a@.len() <= b@.len() {
            assert(ai.len() == 0);
        } else {
            assert(bi.len() == 0 && ai.len() > 0);
        }
    }
    a.len() <= b.len()
}

/// The decimal digits of a number, most significant first.
pub open spec fn spec_dec(n: int) -> Seq<char>
    decreases n,
{
    let d = seq![spec_digit(n % 10)];
    if n < 10 {
        seq![spec_digit(if n < 0 { 0 } else { n })]
    } else {
        spec_dec(n / 10) + d
    }
}

/// One decimal digit as a character.
pub open spec fn spec_digit(d: int) -> char {
    if d == 0 { '0' } else if d == 1 { '1' } else if d == 2 { '2' } else if d == 3 { '3' }
    else if d == 4 { '4' } else if d == 5 { '5' } else if d == 6 { '6' } else if d == 7 { '7' }
    else if d == 8 { '8' } else { '9' }
}

fn digit_char(d: u64) -> (r: char)
    requires
        d < 10,
    ensures
        r == spec_digit(d as int),
{
    match d {
        0 => '0', 1 => '1', 2 => '2', 3 => '3', 4 => '4',
        5 => '5', 6 => '6', 7 => '7', 8 => '8', _ => '9',
    }
}

/// The decimal rendering of a number.
pub fn u64_dec(n: u64) -> (r: Vec<char>)
    ensures
        r@ == spec_dec(n as int),
    decreases n,
{
    if n < 10 {
        let mut v: Vec<char> = Vec::new();
        v.push(digit_char(n));
        proof {
            assert(v@ =~= spec_dec(n as int));
        }
        v
    } else {
        proof {
            assert(n / 10 < n && n / 10 >= 1) by (nonlinear_arith)
                requires n >= 10;
        }
        let mut v = u64_dec(n / 10);
        v.push(digit_char(n % 10));
        proof {
            assert((n as int) / 10 == (n / 10) as int);
            assert((n as int) % 10 == (n % 10) as int);
            assert(v@ =~= spec_dec((n as int) / 10) + seq![spec_digit((n as int) % 10)]);
        }
        v
    }
}

/// The text padded on the left with spaces up to the width, as the numeric
/// columns of the long format are.
pub open spec fn spec_pad_left(s: Seq<char>, w: int) -> Seq<char> {
    if s.len() >= w {
        s
    } else {
        Seq::new((w - s.len()) as nat, |i: int| ' ') + s
    }
}

/// Pads on the left with spaces up to `w` characters.
pub fn pad_left(v: Vec<char>, w: usize) -> (r: Vec<char>)
    ensures
        r@ == spec_pad_left(v@, w as int),
{
    if v.len() >= w {
        return v;
    }
    let mut out: Vec<char> = Vec::new();
    let pad = w - v.len();
    let mut i: usize = 0;
    while i < pad
        invariant
            i <= pad,
            out@ == Seq::new(i as nat, |k: int| ' '),
        decreases pad - i,
    {
        out.push(' ');
        proof {
            assert(out@ =~= Seq::new((i + 1) as nat, |k: int| ' '));
        }
        i = i + 1;
    }
    crate::text::extend_from(&mut out, &v, 0);
    proof {
        assert(v@.skip(0) =~= v@);
        assert(out@ =~= spec_pad_left(v@, w as int));
    }
    out
}


/// One directory entry as the platform reports it: the name, the raw mode
/// word, the link count, the resolved owner and group names (or their
/// numeric fallbacks), the size in bytes and the modification time in
/// seconds since the epoch.
pub struct RawEntry {
    pub name: String,
    pub mode: u32,
    pub nlink: u64,
    pub owner: String,
    pub group: String,
    pub size: u64,
    pub mtime: u64,
}

/// The view of a raw entry: every field as a mathematical value.
pub ghost struct EntryView {
    pub name: Seq<char>,
    pub mode: u32,
    pub nlink: u64,
    pub owner: Seq<char>,
    pub group: Seq<char>,
    pub size: u64,
    pub mtime: u64,
}

impl View for RawEntry {
    type V = EntryView;

    open spec fn view(&self) -> EntryView {
        EntryView {
            name: self.name@,
            mode: self.mode,
            nlink: self.nlink,
            owner: self.owner@,
            group: self.group@,
            size: self.size,
            mtime: self.mtime,
        }
    }
}

/// One listing row: the case-folded sort key kept beside the decorated
/// text, so that ordering never looks at the colour markup.
pub struct Row {
    pub key: Vec<char>,
    pub text: String,
}

/// The view of a row.
pub ghost struct RowView {
    pub key: Seq<char>,
    pub text: Seq<char>,
}

impl View for Row {
    type V = RowView;

    open spec fn view(&self) -> RowView {
        RowView { key: self.key@, text: self.text@ }
    }
}

pub open spec fn entry_views(v: Seq<RawEntry>) -> Seq<EntryView> {
    v.map_values(|e: RawEntry| e@)
}

pub open spec fn row_views(v: Seq<Row>) -> Seq<RowView> {
    v.map_values(|r: Row| r@)
}

/// The timestamps the long format accepts: those the calendar arithmetic
/// underneath is defined for.
pub const MTIME_LIMIT: u64 = 253402300800;

/// Relies on chrono: the modification time rendered through
/// `DateTime<Local>` with `%b %d %H:%M` — a three-letter English month
/// name, a zero-padded day, and the wall-clock hour and minute, twelve
/// characters in every case.  The value depends on the machine's time
/// zone, so nothing more is promised of it.
#[verifier::external_body]
fn format_mtime(secs: u64) -> (r: String)
    requires
        secs < MTIME_LIMIT,
    ensures
        r@.len() == 12,
{
    let t = std::time::UNIX_EPOCH + std::time::Duration::from_secs(secs);
    let datetime = chrono::DateTime::<chrono::Local>::from(t);
    datetime.format("%b %d %H:%M").to_string()
}

/// The classify suffix of a mode word: `/` for a directory, `@` for a
/// symlink, `|` for a fifo, `=` for a socket, `*` for an executable
/// regular file, nothing otherwise.
pub open spec fn spec_classify_suffix(mode: u32) -> Seq<char> {
    let t = mode & 0o170000;
    if t == 0o040000 {
        seq!['/']
    } else if t == 0o120000 {
        seq!['@']
    } else if t == 0o010000 {
        seq!['|']
    } else if t == 0o140000 {
        seq!['=']
    } else if t == 0o100000 && mode & 0o111 != 0 {
        seq!['*']
    } else {
        Seq::empty()
    }
}

/// The name as shown: the classify suffix when asked, and directories and
/// symlinks wrapped in their colour markup.
pub open spec fn spec_decorated(name: Seq<char>, mode: u32, classify: bool) -> Seq<char> {
    let dn = if classify {
        name + spec_classify_suffix(mode)
    } else {
        name
    };
    let t = spec_file_type_char(mode);
    if t == 'd' {
        "\u{1b}[1;34m"@ + dn + "\u{1b}[0m"@
    } else if t == 'l' {
        "\u{1b}[1;36m"@ + dn + "\u{1b}[0m"@
    } else {
        dn
    }
}

/// One long-format line, given the rendered timestamp.
pub open spec fn spec_long_text(e: EntryView, classify: bool, dt: Seq<char>) -> Seq<char> {
    spec_mode_string(e.mode) + seq![' '] + spec_pad_left(spec_dec(e.nlink as int), 3) + seq![' ']
        + e.owner + seq![' '] + e.group + seq![' '] + spec_pad_left(spec_dec(e.size as int), 8)
        + seq![' '] + dt + seq![' '] + spec_decorated(e.name, e.mode, classify)
}

/// Renders the shown name of an entry.
fn decorated_name(name: &str, mode: u32, classify: bool) -> (r: String)
    ensures
        r@ == spec_decorated(name@, mode, classify),
{
    let mut dn = String::new();
    dn.append(name);
    if classify {
        let t = mode & 0o170000;
        if t == 0o040000 {
            crate::text::push_char(&mut dn, '/');
        } else if t == 0o120000 {
            crate::text::push_char(&mut dn, '@');
        } else if t == 0o010000 {
            crate::text::push_char(&mut dn, '|');
        } else if t == 0o140000 {
            crate::text::push_char(&mut dn, '=');
        } else if t == 0o100000 && mode & 0o111 != 0 {
            crate::text::push_char(&mut dn, '*');
        }
        proof {
            assert(dn@ =~= name@ + spec_classify_suffix(mode));
        }
    }
    let t = get_file_type(mode);
    if t == 'd' {
        let mut out = String::from_str("\u{1b}[1;34m");
        out.append(dn.as_str());
        out.append("\u{1b}[0m");
        out
    } else if t == 'l' {
        let mut out = String::from_str("\u{1b}[1;36m");
        out.append(dn.as_str());
        out.append("\u{1b}[0m");
        out
    } else {
        dn
    }
}

/// Builds the row of one entry: the case-folded raw name as the key, and
/// the compact or long text.
fn build_row(e: &RawEntry, long: bool, classify: bool) -> (r: Row)
    requires
        long ==> e.mtime < MTIME_LIMIT,
    ensures
        r@.key == spec_lower_seq(e.name@),
        !long ==> r@.text == spec_decorated(e@.name, e@.mode, classify),
        long ==> exists|dt: Seq<char>|
            dt.len() == 12 && r@.text == #[trigger] spec_long_text(e@, classify, dt),
{
    let nv = chars_of_str(e.name.as_str());
    let key = lower_chars(&nv);
    let shown = decorated_name(e.name.as_str(), e.mode, classify);
    if !long {
        Row { key, text: shown }
    } else {
        let perms = file_mode_string(e.mode);
        let nlink = string_of_chars(&pad_left(u64_dec(e.nlink), 3));
        let size = string_of_chars(&pad_left(u64_dec(e.size), 8));
        let date = format_mtime(e.mtime);
        let ghost dt = date@;
        let mut text = perms;
        text.append(" ");
        text.append(nlink.as_str());
        text.append(" ");
        text.append(e.owner.as_str());
        text.append(" ");
        text.append(e.group.as_str());
        text.append(" ");
        text.append(size.as_str());
        text.append(" ");
        text.append(date.as_str());
        text.append(" ");
        text.append(shown.as_str());
        proof {
            reveal_strlit(" ");
            assert(" "@ =~= seq![' ']);
            assert(text@ =~= spec_long_text(e@, classify, dt));
        }
        Row { key, text }
    }
}

/// True when the rows stand in listing order: each key no later than the
/// next.
pub open spec fn sorted_by_key(rows: Seq<RowView>) -> bool {
    forall|i: int, j: int| 0 <= i < j < rows.len() ==> lex_le(rows[i].key, rows[j].key)
}

/// Sorts the rows by their case-folded keys; the rows themselves are
/// exactly the given ones, reordered.  Each round takes the earliest row
/// with the least key, so rows whose keys compare equal keep their
/// arrival order and the output is deterministic.
fn sort_rows(rows: Vec<Row>) -> (out: Vec<Row>)
    ensures
        sorted_by_key(row_views(out@)),
        row_views(out@).to_multiset() == row_views(rows@).to_multiset(),
{
    let ghost orig = row_views(rows@);
    let mut rest = rows;
    let mut out: Vec<Row> = Vec::new();
    while rest.len() > 0
        invariant
            sorted_by_key(row_views(out@)),
            forall|i: int, j: int|
                0 <= i < out@.len() && 0 <= j < rest@.len() ==> lex_le(
                    row_views(out@)[i].key,
                    row_views(rest@)[j].key,
                ),
            row_views(out@).to_multiset().add(row_views(rest@).to_multiset()) == orig.to_multiset(),
        decreases rest@.len(),
    {
        let mut m: usize = 0;
        let mut k: usize = 1;
        proof {
            lemma_lex_refl(rest@[0].key@);
        }
        while k < rest.len()
            invariant
                1 <= k <= rest@.len(),
                m < rest@.len(),
                m < k,
                forall|j: int| 0 <= j < k ==> lex_le(rest@[m as int].key@, rest@[j].key@),
            decreases rest@.len() - k,
        {
            if !lex_le_chars(&rest[m].key, &rest[k].key) {
                proof {
                    lemma_lex_total(rest@[m as int].key@, rest@[k as int].key@);
                    lemma_lex_refl(rest@[k as int].key@);
                    assert forall|j: int|
                        0 <= j < k + 1 implies lex_le(rest@[k as int].key@, rest@[j].key@) by {
                        if j < k {
                            lemma_lex_trans(
                                rest@[k as int].key@,
                                rest@[m as int].key@,
                                rest@[j].key@,
                            );
                        }
                    }
                }
                m = k;
            }
            k = k + 1;
        }
        let ghost restv = row_views(rest@);
        let ghost outv = row_views(out@);
        let row = rest.remove(m);
        let ghost rv = row@;
        out.push(row);
        proof {
            assert(row_views(rest@) =~= restv.remove(m as int));
            assert(row_views(out@) =~= outv.push(rv));
            assert(restv[m as int] == rv);
            assert(restv.remove(m as int).to_multiset() =~= restv.to_multiset().remove(rv));
            assert(outv.push(rv).to_multiset() =~= outv.to_multiset().insert(rv));
            assert(outv.to_multiset().insert(rv).add(restv.to_multiset().remove(rv))
                =~= outv.to_multiset().add(restv.to_multiset()));
            assert forall|i: int, j: int|
                0 <= i < out@.len() && 0 <= j < rest@.len() implies lex_le(
                row_views(out@)[i].key,
                row_views(rest@)[j].key,
            ) by {
                let old_j = if j < m { j } else { j + 1 };
                assert(row_views(rest@)[j] == restv[old_j]);
                if i < out@.len() - 1 {
                    assert(lex_le(outv[i].key, restv[old_j].key));
                } else {
                    assert(lex_le(rv.key, restv[old_j].key));
                }
            }
            assert forall|i: int, j: int|
                0 <= i < j < out@.len() implies lex_le(
                row_views(out@)[i].key,
                row_views(out@)[j].key,
            ) by {
                if j < out@.len() - 1 {
                    assert(lex_le(outv[i].key, outv[j].key));
                } else {
                    assert(lex_le(outv[i].key, rv.key));
                }
            }
        }
    }
    out
}

/// True when an entry name is hidden: it starts with a dot.
pub open spec fn spec_hidden(name: Seq<char>) -> bool {
    name.len() > 0 && name[0] == '.'
}

/// The entries a listing shows: the hidden ones dropped unless the
/// all-flag asks for them, order kept.
pub open spec fn keep_shown(es: Seq<EntryView>, all: bool) -> Seq<EntryView>
    decreases es.len(),
{
    if es.len() == 0 {
        Seq::empty()
    } else if spec_hidden(es.last().name) && !all {
        keep_shown(es.drop_last(), all)
    } else {
        keep_shown(es.drop_last(), all).push(es.last())
    }
}

/// The row each shown entry contributes, given the rendered timestamps.
pub open spec fn spec_rows(
    es: Seq<EntryView>,
    long: bool,
    classify: bool,
    dates: Seq<Seq<char>>,
) -> Seq<RowView> {
    Seq::new(
        es.len(),
        |i: int|
            RowView {
                key: spec_lower_seq(es[i].name),
                text: if long {
                    spec_long_text(es[i], classify, dates[i])
                } else {
                    spec_decorated(es[i].name, es[i].mode, classify)
                },
            },
    )
}

/// Renders a directory's entries under the given flags: hidden names are
/// dropped unless the all-flag is set, each kept entry becomes its compact
/// or long row, and the rows come out sorted case-insensitively by the raw
/// name — the colour markup and the classify suffix never enter the order.
pub fn list_directory(entries: &Vec<RawEntry>, flags: &Vec<LsFlag>) -> (rows: Vec<Row>)
    requires
        flags@.contains(LsFlag::LongFormat) ==> forall|i: int|
            0 <= i < entries@.len() ==> entries@[i].mtime < MTIME_LIMIT,
    ensures
        sorted_by_key(row_views(rows@)),
        exists|dates: Seq<Seq<char>>|
            #![trigger spec_rows(keep_shown(entry_views(entries@), flags@.contains(LsFlag::All)), flags@.contains(LsFlag::LongFormat), flags@.contains(LsFlag::Classify), dates)]
            {
                &&& dates.len() == keep_shown(
                    entry_views(entries@),
                    flags@.contains(LsFlag::All),
                ).len()
                &&& (forall|i: int| 0 <= i < dates.len() ==> #[trigger] dates[i].len() == 12)
                &&& row_views(rows@).to_multiset() == spec_rows(
                    keep_shown(entry_views(entries@), flags@.contains(LsFlag::All)),
                    flags@.contains(LsFlag::LongFormat),
                    flags@.contains(LsFlag::Classify),
                    dates,
                ).to_multiset()
            },
{
    let all = flags_contain(flags, LsFlag::All);
    let long = flags_contain(flags, LsFlag::LongFormat);
    let classify = flags_contain(flags, LsFlag::Classify);
    let mut built: Vec<Row> = Vec::new();
    let ghost mut dates: Seq<Seq<char>> = Seq::empty();
    let n = entries.len();
    let mut i: usize = 0;
    while i < n
        invariant
            i <= n,
            n == entries@.len(),
            long ==> forall|j: int| 0 <= j < entries@.len() ==> entries@[j].mtime < MTIME_LIMIT,
            dates.len() == keep_shown(entry_views(entries@.subrange(0, i as int)), all).len(),
            forall|j: int| 0 <= j < dates.len() ==> #[trigger] dates[j].len() == 12,
            row_views(built@) == spec_rows(
                keep_shown(entry_views(entries@.subrange(0, i as int)), all),
                long,
                classify,
                dates,
            ),
        decreases n - i,
    {
        let ghost pre = entry_views(entries@.subrange(0, i as int));
        proof {
            assert(entries@.subrange(0, i + 1).drop_last() =~= entries@.subrange(0, i as int));
            assert(entry_views(entries@.subrange(0, i + 1)).drop_last() =~= pre);
            assert(entry_views(entries@.subrange(0, i + 1)).last() == entries@[i as int]@);
        }
        let nv = chars_of_str(entries[i].name.as_str());
        let hidden = nv.len() > 0 && nv[0] == '.';
        if !(hidden && !all) {
            let ghost b0 = row_views(built@);
            let row = build_row(&entries[i], long, classify);
            let ghost rv = row@;
            built.push(row);
            proof {
                let ghost dt = if long {
                    choose|dt: Seq<char>|
                        dt.len() == 12 && rv.text == #[trigger] spec_long_text(
                            entries@[i as int]@,
                            classify,
                            dt,
                        )
                } else {
                    Seq::new(12nat, |k: int| ' ')
                };
                dates = dates.push(dt);
                assert(row_views(built@) =~= b0.push(rv));
                assert(row_views(built@) =~= spec_rows(
                    keep_shown(entry_views(entries@.subrange(0, i + 1)), all),
                    long,
                    classify,
                    dates,
                ));
            }
        } else {
            proof {
                assert(keep_shown(entry_views(entries@.subrange(0, i + 1)), all) =~= keep_shown(
                    pre,
                    all,
                ));
            }
        }
        i = i + 1;
    }
    proof {
        assert(entries@.subrange(0, n as int) =~= entries@);
    }
    let rows = sort_rows(built);
    rows
}


/// What the platform answered when a path was opened for listing: its
/// entries, a refusal because the path is no directory, nothing there at
/// all, or some other failure with the platform's own words.
pub enum DirQuery {
    Entries(Vec<RawEntry>),
    NotDir,
    Missing,
    OtherError(String),
}

/// The view of a query answer.
pub ghost enum QueryView {
    Entries(Seq<EntryView>),
    NotDir,
    Missing,
    OtherError(Seq<char>),
}

impl View for DirQuery {
    type V = QueryView;

    open spec fn view(&self) -> QueryView {
        match self {
            DirQuery::Entries(es) => QueryView::Entries(entry_views(es@)),
            DirQuery::NotDir => QueryView::NotDir,
            DirQuery::Missing => QueryView::Missing,
            DirQuery::OtherError(t) => QueryView::OtherError(t@),
        }
    }
}

/// A query whose report replaces the listing and suppresses the separator.
pub open spec fn query_is_error(q: QueryView) -> bool {
    q is Missing || q is OtherError
}

/// Every entry the answer carries has a timestamp the long format accepts.
pub open spec fn query_mtimes_ok(q: QueryView) -> bool {
    match q {
        QueryView::Entries(es) => forall|j: int| 0 <= j < es.len() ==> es[j].mtime < MTIME_LIMIT,
        _ => true,
    }
}

/// The path actually listed: `.` stands for the working directory, and
/// every other argument goes through the path resolver.
pub open spec fn spec_ls_target(path: Seq<char>, cwd: Seq<char>, home: Seq<char>) -> Seq<char> {
    if path == "."@ {
        cwd
    } else {
        crate::resolve::spec_resolve(path, cwd, home)
    }
}

/// The rows of one section rendered in order: each text followed by a line
/// break in the long format and a tab otherwise.
pub open spec fn render_rows(rows: Seq<RowView>, long: bool) -> Seq<char>
    decreases rows.len(),
{
    if rows.len() == 0 {
        Seq::empty()
    } else {
        render_rows(rows.drop_last(), long) + rows.last().text + (if long {
            seq!['\n']
        } else {
            seq!['\t']
        })
    }
}

/// What one section of the output must hold for its path and its query: the
/// sorted decorated rows for a listed directory, the path itself for a
/// non-directory, and the error report otherwise.
pub open spec fn section_ok(
    sec: Seq<char>,
    path: Seq<char>,
    cwd: Seq<char>,
    home: Seq<char>,
    q: QueryView,
    long: bool,
    classify: bool,
    all: bool,
) -> bool {
    let target = spec_ls_target(path, cwd, home);
    match q {
        QueryView::Missing => sec == "ls: cannot access '"@ + target
            + "': No such file or directory"@ + seq!['\n'],
        QueryView::OtherError(t) => sec == "ls: "@ + t + seq!['\n'],
        QueryView::NotDir => sec == target + (if long {
            seq!['\n']
        } else {
            seq!['\t']
        }),
        QueryView::Entries(es) => exists|rows: Seq<RowView>, dates: Seq<Seq<char>>|
            #![trigger render_rows(rows, long), dates.len()]
            {
                &&& sorted_by_key(rows)
                &&& dates.len() == keep_shown(es, all).len()
                &&& (forall|i: int| 0 <= i < dates.len() ==> #[trigger] dates[i].len() == 12)
                &&& rows.to_multiset() == spec_rows(
                    keep_shown(es, all),
                    long,
                    classify,
                    dates,
                ).to_multiset()
                &&& sec == render_rows(rows, long)
            },
    }
}

/// One section preceded by its `path/:` header when several paths were
/// named.
pub open spec fn ls_part(path: Seq<char>, sec: Seq<char>, multi: bool) -> Seq<char> {
    (if multi {
        path + "/:"@ + seq!['\n']
    } else {
        Seq::empty()
    }) + sec
}

/// The first `k` sections assembled: each part, and a blank-line separator
/// after every part that is neither the last one nor an error report.
pub open spec fn ls_concat(
    paths: Seq<Seq<char>>,
    secs: Seq<Seq<char>>,
    qs: Seq<QueryView>,
    multi: bool,
    k: int,
) -> Seq<char>
    decreases k,
{
    if k <= 0 {
        Seq::empty()
    } else {
        ls_concat(paths, secs, qs, multi, k - 1) + ls_part(paths[k - 1], secs[k - 1], multi) + (
        if k - 1 != paths.len() - 1 && !query_is_error(qs[k - 1]) {
            seq!['\n', '\n']
        } else {
            Seq::empty()
        })
    }
}

pub open spec fn query_views(qs: Seq<DirQuery>) -> Seq<QueryView> {
    qs.map_values(|q: DirQuery| q@)
}

proof fn lemma_ls_concat_push(
    paths: Seq<Seq<char>>,
    secs: Seq<Seq<char>>,
    qs: Seq<QueryView>,
    multi: bool,
    k: int,
    x: Seq<char>,
)
    requires
        0 <= k <= secs.len(),
    ensures
        ls_concat(paths, secs.push(x), qs, multi, k) == ls_concat(paths, secs, qs, multi, k),
    decreases k,
{
    if k > 0 {
        lemma_ls_concat_push(paths, secs, qs, multi, k - 1, x);
        assert(secs.push(x)[k - 1] == secs[k - 1]);
    }
}

/// Law: a listing never shows a hidden name unless the all-flag asks for
/// it, with the flag it drops nothing, and everything shown is one of the
/// directory's own entries.
pub proof fn lemma_hidden_entries(es: Seq<EntryView>, all: bool)
    ensures
        !all ==> forall|i: int|
            0 <= i < keep_shown(es, all).len() ==> !spec_hidden(
                #[trigger] keep_shown(es, all)[i].name,
            ),
        all ==> keep_shown(es, all) == es,
        forall|i: int|
            0 <= i < keep_shown(es, all).len() ==> es.contains(#[trigger] keep_shown(es, all)[i]),
    decreases es.len(),
{
    if es.len() > 0 {
        lemma_hidden_entries(es.drop_last(), all);
        if all {
            assert(keep_shown(es, all) =~= es);
        }
        assert forall|i: int|
            0 <= i < keep_shown(es, all).len() implies es.contains(
            #[trigger] keep_shown(es, all)[i],
        ) by {
            let pre = keep_shown(es.drop_last(), all);
            if i < pre.len() {
                assert(es.drop_last().contains(pre[i]));
                let j = choose|j: int| 0 <= j < es.drop_last().len() && es.drop_last()[j] == pre[i];
                assert(es[j] == keep_shown(es, all)[i]);
            } else {
                assert(keep_shown(es, all)[i] == es[es.len() - 1]);
            }
        }
    }
}

impl crate::shell::Shell {
    /// The whole output of one `ls` invocation, given the platform's answer
    /// for each path argument: per path a header when several paths were
    /// named, then the sorted listing, the path itself for a non-directory,
    /// or the error report; listings of consecutive paths are parted by a
    /// blank line, and the output ends with a line break.
    #[verifier::rlimit(100)]
    pub fn handle_ls_command(&self, args: Vec<String>, queries: &Vec<DirQuery>) -> (out: String)
        requires
            queries@.len() == spec_parse_ls_args(crate::text::views_of(args@)).1.len(),
            spec_parse_ls_args(crate::text::views_of(args@)).0.contains(LsFlag::LongFormat)
                ==> forall|qi: int|
                0 <= qi < queries@.len() ==> query_mtimes_ok(#[trigger] queries@[qi]@),
        ensures
            ({
                let pr = spec_parse_ls_args(crate::text::views_of(args@));
                let long = pr.0.contains(LsFlag::LongFormat);
                let classify = pr.0.contains(LsFlag::Classify);
                let all = pr.0.contains(LsFlag::All);
                exists|secs: Seq<Seq<char>>|
                    #![trigger secs.len()]
                    {
                        &&& secs.len() == pr.1.len()
                        &&& (forall|i: int|
                            0 <= i < pr.1.len() ==> section_ok(
                                #[trigger] secs[i],
                                pr.1[i],
                                self.abs_cwd@,
                                self.home_dir@,
                                queries@[i]@,
                                long,
                                classify,
                                all,
                            ))
                        &&& out@ == ls_concat(
                            pr.1,
                            secs,
                            query_views(queries@),
                            pr.1.len() > 1,
                            pr.1.len() as int,
                        ) + seq!['\n']
                    }
            }),
    {
        let ghost argsv = crate::text::views_of(args@);
        let (flags, paths) = parse_ls_args(args);
        let long = flags_contain(&flags, LsFlag::LongFormat);
        let classify = flags_contain(&flags, LsFlag::Classify);
        let all = flags_contain(&flags, LsFlag::All);
        let multi = paths.len() > 1;
        let ghost pathsv = crate::text::views_of(paths@);
        let ghost qv = query_views(queries@);
        let mut out = String::new();
        let ghost mut secs: Seq<Seq<char>> = Seq::empty();
        let n = paths.len();
        let mut i: usize = 0;
        while i < n
            invariant
                i <= n,
                n == paths@.len() == queries@.len(),
                pathsv == crate::text::views_of(paths@),
                pathsv == spec_parse_ls_args(argsv).1,
                flags@ == spec_parse_ls_args(argsv).0,
                long == flags@.contains(LsFlag::LongFormat),
                classify == flags@.contains(LsFlag::Classify),
                all == flags@.contains(LsFlag::All),
                qv == query_views(queries@),
                multi == (n > 1),
                long ==> forall|qi: int|
                    0 <= qi < queries@.len() ==> query_mtimes_ok(#[trigger] queries@[qi]@),
                secs.len() == i,
                forall|j: int|
                    0 <= j < i ==> section_ok(
                        #[trigger] secs[j],
                        pathsv[j],
                        self.abs_cwd@,
                        self.home_dir@,
                        queries@[j]@,
                        long,
                        classify,
                        all,
                    ),
                out@ == ls_concat(pathsv, secs, qv, multi, i as int),
            decreases n - i,
        {
            if multi {
                out.append(paths[i].as_str());
                out.append("/:");
                crate::text::push_char(&mut out, '\n');
            }
            let target: String = if crate::text::str_eq(paths[i].as_str(), ".") {
                let mut t = String::new();
                t.append(self.abs_cwd.as_str());
                t
            } else {
                self.resolve_path(paths[i].as_str())
            };
            let mut is_err = false;
            let mut sec = String::new();
            match &queries[i] {
                DirQuery::Entries(es) => {
                    proof {
                        let evs = entry_views(es@);
                        assert(queries@[i as int]@ == QueryView::Entries(evs));
                        if long {
                            assert(query_mtimes_ok(queries@[i as int]@));
                            assert(queries@[i as int]@->Entries_0 == evs);
                            assert forall|j: int|
                                0 <= j < es@.len() implies es@[j].mtime < MTIME_LIMIT by {
                                assert(queries@[i as int]@->Entries_0[j].mtime < MTIME_LIMIT);
                                assert(evs[j] == es@[j]@);
                            }
                        }
                    }
                    let rows = list_directory(es, &flags);
                    let nr = rows.len();
                    let mut r: usize = 0;
                    while r < nr
                        invariant
                            r <= nr,
                            nr == rows@.len(),
                            long == flags@.contains(LsFlag::LongFormat),
                            sec@ == render_rows(row_views(rows@).subrange(0, r as int), long),
                        decreases nr - r,
                    {
                        proof {
                            let cur = row_views(rows@).subrange(0, r + 1);
                            assert(cur.drop_last() =~= row_views(rows@).subrange(0, r as int));
                            assert(cur.last() == rows@[r as int]@);
                        }
                        sec.append(rows[r].text.as_str());
                        if long {
                            crate::text::push_char(&mut sec, '\n');
                        } else {
                            crate::text::push_char(&mut sec, '\t');
                        }
                        r = r + 1;
                    }
                    proof {
                        assert(row_views(rows@).subrange(0, nr as int) =~= row_views(rows@));
                        let shown = keep_shown(entry_views(es@), all);
                        let dates = choose|dates: Seq<Seq<char>>|
                            #![trigger spec_rows(keep_shown(entry_views(es@), flags@.contains(LsFlag::All)), flags@.contains(LsFlag::LongFormat), flags@.contains(LsFlag::Classify), dates)]
                            {
                                &&& dates.len() == keep_shown(
                                    entry_views(es@),
                                    flags@.contains(LsFlag::All),
                                ).len()
                                &&& (forall|ii: int|
                                    0 <= ii < dates.len() ==> #[trigger] dates[ii].len() == 12)
                                &&& row_views(rows@).to_multiset() == spec_rows(
                                    keep_shown(entry_views(es@), flags@.contains(LsFlag::All)),
                                    flags@.contains(LsFlag::LongFormat),
                                    flags@.contains(LsFlag::Classify),
                                    dates,
                                ).to_multiset()
                            };
                        assert(render_rows(row_views(rows@), long) == sec@);
                        assert(section_ok(
                            sec@,
                            pathsv[i as int],
                            self.abs_cwd@,
                            self.home_dir@,
                            queries@[i as int]@,
                            long,
                            classify,
                            all,
                        ));
                    }
                },
                DirQuery::NotDir => {
                    sec.append(target.as_str());
                    if long {
                        crate::text::push_char(&mut sec, '\n');
                    } else {
                        crate::text::push_char(&mut sec, '\t');
                    }
                    proof {
                        assert(sec@ =~= spec_ls_target(pathsv[i as int], self.abs_cwd@, self.home_dir@) + (
                        if long {
                            seq!['\n']
                        } else {
                            seq!['\t']
                        }));
                    }
                },
                DirQuery::Missing => {
                    is_err = true;
                    sec.append("ls: cannot access '");
                    sec.append(target.as_str());
                    sec.append("': No such file or directory");
                    crate::text::push_char(&mut sec, '\n');
                    proof {
                        assert(sec@ =~= "ls: cannot access '"@ + spec_ls_target(
                            pathsv[i as int],
                            self.abs_cwd@,
                            self.home_dir@,
                        ) + "': No such file or directory"@ + seq!['\n']);
                    }
                },
                DirQuery::OtherError(t) => {
                    is_err = true;
                    sec.append("ls: ");
                    sec.append(t.as_str());
                    crate::text::push_char(&mut sec, '\n');
                    proof {
                        assert(queries@[i as int]@ matches QueryView::OtherError(tv) && sec@ =~= "ls: "@
                            + tv + seq!['\n']);
                    }
                },
            }
            out.append(sec.as_str());
            proof {
                lemma_ls_concat_push(pathsv, secs, qv, multi, i as int, sec@);
                secs = secs.push(sec@);
                assert(is_err == query_is_error(qv[i as int]));
            }
            if i + 1 != n && !is_err {
                crate::text::push_char(&mut out, '\n');
                crate::text::push_char(&mut out, '\n');
            }
            proof {
                assert(out@ =~= ls_concat(pathsv, secs, qv, multi, i + 1));
            }
            i = i + 1;
        }
        crate::text::push_char(&mut out, '\n');
        out
    }
}

} // verus!
