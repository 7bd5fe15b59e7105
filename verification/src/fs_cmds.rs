use vstd::prelude::*;
use vstd::string::*;
use crate::fs_model::{covered, denied_in, under, FsSpace, NodeView};
use crate::file_ops::cat3;
use crate::resolve::{pop_segment, spec_resolve};
use crate::text::views_of;

verus! {

/// The permission bits a directory made by `mkdir` carries in this model.
pub const NEW_DIR_MODE: u32 = 0o40755;

/// What `mkdir` does with one argument: an existing path, a parent that is
/// missing or not a directory, or a refused write is reported; only then —
/// the creation is not recursive — does a fresh directory node appear at
/// the resolved path.
pub open spec fn mkdir_one(
    m: Map<Seq<char>, NodeView>,
    dn: Seq<String>,
    arg: Seq<char>,
    cwd: Seq<char>,
    home: Seq<char>,
) -> (Map<Seq<char>, NodeView>, Seq<Seq<char>>) {
    let p = spec_resolve(arg, cwd, home);
    let par = pop_segment(p);
    if m.dom().contains(p) {
        (m, seq!["mkdir: cannot create directory '"@ + arg + "': File exists"@])
    } else if par.len() > 0 && !m.dom().contains(par) {
        (m, seq!["mkdir: cannot create directory '"@ + arg + "': No such file or directory"@])
    } else if par.len() > 0 && !(m[par] is Dir) {
        (m, seq!["mkdir: cannot create directory '"@ + arg + "': Not a directory"@])
    } else if denied_in(dn, p) {
        (m, seq!["mkdir: cannot create directory '"@ + arg + "': Operation not permitted"@])
    } else {
        (m.insert(p, NodeView::Dir { mode: NEW_DIR_MODE }), seq![])
    }
}

pub open spec fn mkdir_fold(
    m: Map<Seq<char>, NodeView>,
    dn: Seq<String>,
    args: Seq<Seq<char>>,
    cwd: Seq<char>,
    home: Seq<char>,
) -> (Map<Seq<char>, NodeView>, Seq<Seq<char>>)
    decreases args.len(),
{
    if args.len() == 0 {
        (m, Seq::empty())
    } else {
        let prev = mkdir_fold(m, dn, args.drop_last(), cwd, home);
        let step = mkdir_one(prev.0, dn, args.last(), cwd, home);
        (step.0, prev.1 + step.1)
    }
}

/// What `rm` does with one argument: a missing path or a directory without
/// the recursive flag is reported; a directory goes with everything under
/// it, a file alone.
pub open spec fn rm_one(
    m: Map<Seq<char>, NodeView>,
    arg: Seq<char>,
    cwd: Seq<char>,
    home: Seq<char>,
    recursive: bool,
) -> (Map<Seq<char>, NodeView>, Seq<Seq<char>>) {
    let p = spec_resolve(arg, cwd, home);
    if !m.dom().contains(p) {
        (m, seq!["rm: cannot remove '"@ + arg + "': No such file or directory"@])
    } else if m[p] is Dir {
        if !recursive {
            (m, seq!["rm: cannot remove '"@ + arg + "': Is a directory"@])
        } else {
            (Map::new(|q: Seq<char>| m.dom().contains(q) && !covered(q, p), |q: Seq<char>| m[q]), seq![])
        }
    } else {
        (m.remove(p), seq![])
    }
}

pub open spec fn rm_fold(
    m: Map<Seq<char>, NodeView>,
    args: Seq<Seq<char>>,
    cwd: Seq<char>,
    home: Seq<char>,
    recursive: bool,
) -> (Map<Seq<char>, NodeView>, Seq<Seq<char>>)
    decreases args.len(),
{
    if args.len() == 0 {
        (m, Seq::empty())
    } else {
        let prev = rm_fold(m, args.drop_last(), cwd, home, recursive);
        let step = rm_one(prev.0, args.last(), cwd, home, recursive);
        (step.0, prev.1 + step.1)
    }
}

/// What `rmdir` does with one argument: a missing path, a non-directory or
/// a non-empty directory is reported; with the recursive flag the whole
/// tree of a directory goes, otherwise only the empty directory itself.
pub open spec fn rmdir_one(
    m: Map<Seq<char>, NodeView>,
    arg: Seq<char>,
    cwd: Seq<char>,
    home: Seq<char>,
    recursive: bool,
) -> (Map<Seq<char>, NodeView>, Seq<Seq<char>>) {
    let p = spec_resolve(arg, cwd, home);
    if !m.dom().contains(p) {
        (m, seq!["rmdir: cannot remove '"@ + arg + "': No such file or directory"@])
    } else if !(m[p] is Dir) {
        (m, seq!["rmdir: cannot remove '"@ + arg + "': Not a directory"@])
    } else if recursive {
        (Map::new(|q: Seq<char>| m.dom().contains(q) && !covered(q, p), |q: Seq<char>| m[q]), seq![])
    } else if exists|q: Seq<char>| #[trigger] m.dom().contains(q) && under(q, p) {
        (m, seq!["rmdir: cannot remove '"@ + arg + "': Directory not empty"@])
    } else {
        (m.remove(p), seq![])
    }
}

pub open spec fn rmdir_fold(
    m: Map<Seq<char>, NodeView>,
    args: Seq<Seq<char>>,
    cwd: Seq<char>,
    home: Seq<char>,
    recursive: bool,
) -> (Map<Seq<char>, NodeView>, Seq<Seq<char>>)
    decreases args.len(),
{
    if args.len() == 0 {
        (m, Seq::empty())
    } else {
        let prev = rmdir_fold(m, args.drop_last(), cwd, home, recursive);
        let step = rmdir_one(prev.0, args.last(), cwd, home, recursive);
        (step.0, prev.1 + step.1)
    }
}

/// One `cat` outcome: the bytes of a file, or the report that stands in
/// for them.
pub enum CatItem {
    Content(Vec<u8>),
    Error(String),
}

/// The view of a `cat` outcome.
pub ghost enum CatItemView {
    Content(Seq<u8>),
    Error(Seq<char>),
}

impl View for CatItem {
    type V = CatItemView;

    open spec fn view(&self) -> CatItemView {
        match self {
            CatItem::Content(c) => CatItemView::Content(c@),
            CatItem::Error(t) => CatItemView::Error(t@),
        }
    }
}

pub open spec fn cat_item_views(v: Seq<CatItem>) -> Seq<CatItemView> {
    v.map_values(|c: CatItem| c@)
}

/// What `cat` yields for one argument: the file's bytes, or the report for
/// a missing path or a directory.
pub open spec fn cat_one(
    m: Map<Seq<char>, NodeView>,
    arg: Seq<char>,
    cwd: Seq<char>,
    home: Seq<char>,
) -> CatItemView {
    let p = spec_resolve(arg, cwd, home);
    if !m.dom().contains(p) {
        CatItemView::Error("cat: "@ + arg + ": No such file or directory"@)
    } else if m[p] is Dir {
        CatItemView::Error("cat: "@ + arg + ": Is a directory"@)
    } else {
        CatItemView::Content(m[p]->File_content)
    }
}

impl crate::shell::Shell {
    /// The `mkdir` command: each argument resolved and given a fresh
    /// directory node under an existing parent directory; existing paths,
    /// missing or non-directory parents and refused writes are reported,
    /// and one bad argument never stops the rest.  Exactly `mkdir_fold`
    /// happens.
    pub fn handle_mkdir_command(&self, args: Vec<String>, fs: &mut FsSpace) -> (msgs: Vec<String>)
        requires
            old(fs).wf(),
        ensures
            final(fs).wf(),
            final(fs).denied@ == old(fs).denied@,
            args@.len() == 0 ==> final(fs)@ == old(fs)@ && views_of(msgs@) == seq![
                "ru-shell: "@ + "mkdir: missing operand"@,
            ],
            args@.len() > 0 ==> ({
                let full = mkdir_fold(
                    old(fs)@,
                    old(fs).denied@,
                    views_of(args@),
                    self.abs_cwd@,
                    self.home_dir@,
                );
                final(fs)@ == full.0 && views_of(msgs@) == full.1
            }),
    {
        let mut msgs: Vec<String> = Vec::new();
        if args.len() == 0 {
            msgs.push(self.error("mkdir: missing operand", true));
            proof {
                assert(views_of(msgs@) =~= seq!["ru-shell: "@ + "mkdir: missing operand"@]);
            }
            return msgs;
        }
        let ghost m0 = fs@;
        let ghost dn = fs.denied@;
        let ghost argsv = views_of(args@);
        let n = args.len();
        let mut i: usize = 0;
        while i < n
            invariant
                i <= n,
                n == args@.len(),
                argsv == views_of(args@),
                fs.wf(),
                fs.denied@ == dn,
                mkdir_fold(m0, dn, argsv.subrange(0, i as int), self.abs_cwd@, self.home_dir@).0
                    == fs@,
                mkdir_fold(m0, dn, argsv.subrange(0, i as int), self.abs_cwd@, self.home_dir@).1
                    == views_of(msgs@),
            decreases n - i,
        {
            let ghost msgs0 = views_of(msgs@);
            proof {
                assert(argsv.subrange(0, i + 1).drop_last() =~= argsv.subrange(0, i as int));
                assert(argsv.subrange(0, i + 1).last() == args@[i as int]@);
            }
            let arg = args[i].as_str();
            let p = self.resolve_path(arg);
            let pv = crate::text::chars_of_str(p.as_str());
            let parv = crate::resolve::pop_segment_chars(&pv);
            let parent = crate::text::string_of_chars(&parv);
            if fs.exists_path(p.as_str()) {
                msgs.push(cat3("mkdir: cannot create directory '", arg, "': File exists"));
                proof {
                    assert(views_of(msgs@) =~= msgs0.push(
                        "mkdir: cannot create directory '"@ + arg@ + "': File exists"@,
                    ));
                    assert(msgs0 + seq![
                        "mkdir: cannot create directory '"@ + arg@ + "': File exists"@,
                    ] =~= views_of(msgs@));
                }
            } else if parv.len() > 0 && !fs.exists_path(parent.as_str()) {
                msgs.push(
                    cat3("mkdir: cannot create directory '", arg, "': No such file or directory"),
                );
                proof {
                    assert(parv@.len() > 0);
                    assert(views_of(msgs@) =~= msgs0.push(
                        "mkdir: cannot create directory '"@ + arg@ + "': No such file or directory"@,
                    ));
                    assert(msgs0 + seq![
                        "mkdir: cannot create directory '"@ + arg@ + "': No such file or directory"@,
                    ] =~= views_of(msgs@));
                }
            } else if parv.len() > 0 && !fs.is_dir(parent.as_str()) {
                msgs.push(cat3("mkdir: cannot create directory '", arg, "': Not a directory"));
                proof {
                    assert(views_of(msgs@) =~= msgs0.push(
                        "mkdir: cannot create directory '"@ + arg@ + "': Not a directory"@,
                    ));
                    assert(msgs0 + seq![
                        "mkdir: cannot create directory '"@ + arg@ + "': Not a directory"@,
                    ] =~= views_of(msgs@));
                }
            } else {
                match fs.make_dir_node(p.as_str(), NEW_DIR_MODE) {
                    Ok(_) => {
                        proof {
                            assert(msgs0 + Seq::<Seq<char>>::empty() =~= msgs0);
                        }
                    },
                    Err(_) => {
                        msgs.push(
                            cat3("mkdir: cannot create directory '", arg, "': Operation not permitted"),
                        );
                        proof {
                            assert(views_of(msgs@) =~= msgs0.push(
                                "mkdir: cannot create directory '"@ + arg@
                                    + "': Operation not permitted"@,
                            ));
                            assert(msgs0 + seq![
                                "mkdir: cannot create directory '"@ + arg@
                                    + "': Operation not permitted"@,
                            ] =~= views_of(msgs@));
                        }
                    },
                }
            }
            i = i + 1;
        }
        proof {
            assert(argsv.subrange(0, n as int) =~= argsv);
        }
        msgs
    }

    /// The `rm` command: recursive flags gathered from anywhere among the
    /// arguments, each path resolved and removed, with missing paths and
    /// directories without the flag reported.  Exactly `rm_fold` happens on
    /// the paths.
    pub fn handle_rm_command(&self, args: Vec<String>, fs: &mut FsSpace) -> (msgs: Vec<String>)
        requires
            old(fs).wf(),
        ensures
            final(fs).wf(),
            final(fs).denied@ == old(fs).denied@,
            ({
                let paths = crate::file_ops::drop_flags(views_of(args@));
                let recursive = crate::file_ops::any_flag(views_of(args@));
                if paths.len() == 0 {
                    final(fs)@ == old(fs)@ && views_of(msgs@) == seq![
                        "ru-shell: "@ + "rm: missing operand"@,
                    ]
                } else {
                    let full = rm_fold(old(fs)@, paths, self.abs_cwd@, self.home_dir@, recursive);
                    final(fs)@ == full.0 && views_of(msgs@) == full.1
                }
            }),
    {
        let mut recursive = false;
        let mut paths: Vec<String> = Vec::new();
        let n = args.len();
        let mut i: usize = 0;
        while i < n
            invariant
                i <= n,
                n == args@.len(),
                recursive == crate::file_ops::any_flag(views_of(args@.subrange(0, i as int))),
                views_of(paths@) == crate::file_ops::drop_flags(
                    views_of(args@.subrange(0, i as int)),
                ),
            decreases n - i,
        {
            let ghost prev = views_of(args@.subrange(0, i as int));
            let a = args[i].as_str();
            let isflag = crate::text::str_eq(a, "-r") || crate::text::str_eq(a, "-R")
                || crate::text::str_eq(a, "--recursive");
            let ghost p0 = paths@;
            if isflag {
                recursive = true;
            } else {
                paths.push(args[i].clone());
            }
            proof {
                let cur = views_of(args@.subrange(0, i + 1));
                assert(args@.subrange(0, i + 1).drop_last() =~= args@.subrange(0, i as int));
                assert(cur.drop_last() =~= prev);
                assert(cur.last() == args@[i as int]@);
                assert(crate::file_ops::is_cp_flag(args@[i as int]@) == isflag);
                assert(crate::file_ops::any_flag(cur) == (crate::file_ops::any_flag(prev)
                    || isflag)) by {
                    if crate::file_ops::any_flag(cur) && !isflag {
                        let ii = choose|ii: int|
                            0 <= ii < cur.len() && crate::file_ops::is_cp_flag(#[trigger] cur[ii]);
                        if ii < prev.len() {
                            assert(crate::file_ops::is_cp_flag(prev[ii]));
                        }
                    }
                    if crate::file_ops::any_flag(prev) {
                        let ii = choose|ii: int|
                            0 <= ii < prev.len() && crate::file_ops::is_cp_flag(
                                #[trigger] prev[ii],
                            );
                        assert(crate::file_ops::is_cp_flag(cur[ii]));
                    }
                    if isflag {
                        assert(crate::file_ops::is_cp_flag(cur[cur.len() - 1]));
                    }
                }
                if !isflag {
                    assert(views_of(paths@) =~= views_of(p0).push(args@[i as int]@));
                }
            }
            i = i + 1;
        }
        proof {
            assert(args@.subrange(0, n as int) =~= args@);
        }
        let mut msgs: Vec<String> = Vec::new();
        if paths.len() == 0 {
            msgs.push(self.error("rm: missing operand", true));
            proof {
                assert(views_of(msgs@) =~= seq!["ru-shell: "@ + "rm: missing operand"@]);
            }
            return msgs;
        }
        let ghost m0 = fs@;
        let ghost pathsv = views_of(paths@);
        let np = paths.len();
        let mut k: usize = 0;
        while k < np
            invariant
                k <= np,
                np == paths@.len(),
                pathsv == views_of(paths@),
                fs.wf(),
                fs.denied@ == old(fs).denied@,
                rm_fold(m0, pathsv.subrange(0, k as int), self.abs_cwd@, self.home_dir@, recursive).0
                    == fs@,
                rm_fold(m0, pathsv.subrange(0, k as int), self.abs_cwd@, self.home_dir@, recursive).1
                    == views_of(msgs@),
            decreases np - k,
        {
            let ghost msgs0 = views_of(msgs@);
            let ghost mk = fs@;
            proof {
                assert(pathsv.subrange(0, k + 1).drop_last() =~= pathsv.subrange(0, k as int));
                assert(pathsv.subrange(0, k + 1).last() == paths@[k as int]@);
            }
            let arg = paths[k].as_str();
            let p = self.resolve_path(arg);
            if !fs.exists_path(p.as_str()) {
                msgs.push(cat3("rm: cannot remove '", arg, "': No such file or directory"));
                proof {
                    assert(views_of(msgs@) =~= msgs0.push(
                        "rm: cannot remove '"@ + arg@ + "': No such file or directory"@,
                    ));
                    assert(msgs0 + seq![
                        "rm: cannot remove '"@ + arg@ + "': No such file or directory"@,
                    ] =~= views_of(msgs@));
                }
            } else if fs.is_dir(p.as_str()) {
                if !recursive {
                    msgs.push(cat3("rm: cannot remove '", arg, "': Is a directory"));
                    proof {
                        assert(views_of(msgs@) =~= msgs0.push(
                            "rm: cannot remove '"@ + arg@ + "': Is a directory"@,
                        ));
                        assert(msgs0 + seq!["rm: cannot remove '"@ + arg@ + "': Is a directory"@]
                            =~= views_of(msgs@));
                    }
                } else {
                    fs.remove_tree(p.as_str());
                    proof {
                        assert(fs@ =~= Map::new(
                            |q: Seq<char>| mk.dom().contains(q) && !covered(q, p@),
                            |q: Seq<char>| mk[q],
                        ));
                        assert(msgs0 + Seq::<Seq<char>>::empty() =~= msgs0);
                    }
                }
            } else {
                fs.remove_path(p.as_str());
                proof {
                    assert(msgs0 + Seq::<Seq<char>>::empty() =~= msgs0);
                }
            }
            k = k + 1;
        }
        proof {
            assert(pathsv.subrange(0, np as int) =~= pathsv);
        }
        msgs
    }

    /// The `rmdir` command: each argument removed as a directory — only
    /// when empty unless the recursive flag was given — with every failure
    /// reported and the rest still handled.  Exactly `rmdir_fold` happens
    /// on the paths.
    pub fn handle_rmdir_command(&self, args: Vec<String>, fs: &mut FsSpace) -> (msgs: Vec<String>)
        requires
            old(fs).wf(),
        ensures
            final(fs).wf(),
            final(fs).denied@ == old(fs).denied@,
            ({
                let all = views_of(args@);
                let paths = all.filter(|a: Seq<char>| a != "-r"@);
                let recursive = all.len() != paths.len();
                if args@.len() == 0 || paths.len() == 0 {
                    final(fs)@ == old(fs)@ && views_of(msgs@) == seq![
                        "ru-shell: "@ + "rmdir: missing operand"@,
                    ]
                } else {
                    let full = rmdir_fold(
                        old(fs)@,
                        paths,
                        self.abs_cwd@,
                        self.home_dir@,
                        recursive,
                    );
                    final(fs)@ == full.0 && views_of(msgs@) == full.1
                }
            }),
    {
        let mut msgs: Vec<String> = Vec::new();
        if args.len() == 0 {
            msgs.push(self.error("rmdir: missing operand", true));
            proof {
                assert(views_of(args@).filter(|a: Seq<char>| a != "-r"@) =~= Seq::<
                    Seq<char>,
                >::empty());
                assert(views_of(msgs@) =~= seq!["ru-shell: "@ + "rmdir: missing operand"@]);
            }
            return msgs;
        }
        let mut recursive = false;
        let mut paths: Vec<String> = Vec::new();
        let n = args.len();
        let mut i: usize = 0;
        while i < n
            invariant
                i <= n,
                n == args@.len(),
                views_of(paths@) == views_of(args@.subrange(0, i as int)).filter(
                    |a: Seq<char>| a != "-r"@,
                ),
                recursive == (i != views_of(paths@).len()),
            decreases n - i,
        {
            let ghost prev = views_of(args@.subrange(0, i as int));
            let ghost p0 = paths@;
            let a = args[i].as_str();
            if crate::text::str_eq(a, "-r") {
                recursive = true;
            } else {
                paths.push(args[i].clone());
            }
            proof {
                let cur = views_of(args@.subrange(0, i + 1));
                assert(args@.subrange(0, i + 1).drop_last() =~= args@.subrange(0, i as int));
                assert(cur.drop_last() =~= prev);
                assert(cur.last() == args@[i as int]@);
                assert(cur =~= prev.push(args@[i as int]@));
                prev.lemma_filter_push(args@[i as int]@, |x: Seq<char>| x != "-r"@);
                if args@[i as int]@ != "-r"@ {
                    assert(views_of(paths@) =~= views_of(p0).push(args@[i as int]@));
                }
            }
            i = i + 1;
        }
        proof {
            assert(args@.subrange(0, n as int) =~= args@);
        }
        if paths.len() == 0 {
            msgs.push(self.error("rmdir: missing operand", true));
            proof {
                assert(views_of(msgs@) =~= seq!["ru-shell: "@ + "rmdir: missing operand"@]);
            }
            return msgs;
        }
        let ghost m0 = fs@;
        let ghost pathsv = views_of(paths@);
        let np = paths.len();
        let mut k: usize = 0;
        while k < np
            invariant
                k <= np,
                np == paths@.len(),
                pathsv == views_of(paths@),
                fs.wf(),
                fs.denied@ == old(fs).denied@,
                rmdir_fold(
                    m0,
                    pathsv.subrange(0, k as int),
                    self.abs_cwd@,
                    self.home_dir@,
                    recursive,
                ).0 == fs@,
                rmdir_fold(
                    m0,
                    pathsv.subrange(0, k as int),
                    self.abs_cwd@,
                    self.home_dir@,
                    recursive,
                ).1 == views_of(msgs@),
            decreases np - k,
        {
            let ghost msgs0 = views_of(msgs@);
            let ghost mk = fs@;
            proof {
                assert(pathsv.subrange(0, k + 1).drop_last() =~= pathsv.subrange(0, k as int));
                assert(pathsv.subrange(0, k + 1).last() == paths@[k as int]@);
            }
            let arg = paths[k].as_str();
            let p = self.resolve_path(arg);
            if !fs.exists_path(p.as_str()) {
                msgs.push(cat3("rmdir: cannot remove '", arg, "': No such file or directory"));
                proof {
                    assert(views_of(msgs@) =~= msgs0.push(
                        "rmdir: cannot remove '"@ + arg@ + "': No such file or directory"@,
                    ));
                    assert(msgs0 + seq![
                        "rmdir: cannot remove '"@ + arg@ + "': No such file or directory"@,
                    ] =~= views_of(msgs@));
                }
            } else if !fs.is_dir(p.as_str()) {
                msgs.push(cat3("rmdir: cannot remove '", arg, "': Not a directory"));
                proof {
                    assert(views_of(msgs@) =~= msgs0.push(
                        "rmdir: cannot remove '"@ + arg@ + "': Not a directory"@,
                    ));
                    assert(msgs0 + seq!["rmdir: cannot remove '"@ + arg@ + "': Not a directory"@]
                        =~= views_of(msgs@));
                }
            } else if recursive {
                fs.remove_tree(p.as_str());
                proof {
                    assert(fs@ =~= Map::new(
                        |q: Seq<char>| mk.dom().contains(q) && !covered(q, p@),
                        |q: Seq<char>| mk[q],
                    ));
                    assert(msgs0 + Seq::<Seq<char>>::empty() =~= msgs0);
                }
            } else if fs.has_child(p.as_str()) {
                msgs.push(cat3("rmdir: cannot remove '", arg, "': Directory not empty"));
                proof {
                    assert(views_of(msgs@) =~= msgs0.push(
                        "rmdir: cannot remove '"@ + arg@ + "': Directory not empty"@,
                    ));
                    assert(msgs0 + seq![
                        "rmdir: cannot remove '"@ + arg@ + "': Directory not empty"@,
                    ] =~= views_of(msgs@));
                }
            } else {
                fs.remove_path(p.as_str());
                proof {
                    assert(msgs0 + Seq::<Seq<char>>::empty() =~= msgs0);
                }
            }
            k = k + 1;
        }
        proof {
            assert(pathsv.subrange(0, np as int) =~= pathsv);
        }
        msgs
    }

    /// The `cat` command: the bytes of each named file in order, a report
    /// standing in wherever the path is missing or names a directory.
    pub fn handle_cat_command(&self, args: Vec<String>, fs: &FsSpace) -> (items: Vec<CatItem>)
        requires
            fs.wf(),
        ensures
            args@.len() == 0 ==> cat_item_views(items@) == seq![
                CatItemView::Error("cat: missing file"@),
            ],
            args@.len() > 0 ==> cat_item_views(items@) == Seq::new(
                args@.len(),
                |i: int| cat_one(fs@, args@[i]@, self.abs_cwd@, self.home_dir@),
            ),
    {
        let mut items: Vec<CatItem> = Vec::new();
        if args.len() == 0 {
            items.push(CatItem::Error(String::from_str("cat: missing file")));
            proof {
                assert(cat_item_views(items@) =~= seq![CatItemView::Error("cat: missing file"@)]);
            }
            return items;
        }
        let n = args.len();
        let mut i: usize = 0;
        while i < n
            invariant
                i <= n,
                n == args@.len(),
                fs.wf(),
                cat_item_views(items@) == Seq::new(
                    i as nat,
                    |j: int| cat_one(fs@, args@[j]@, self.abs_cwd@, self.home_dir@),
                ),
            decreases n - i,
        {
            let ghost it0 = cat_item_views(items@);
            let arg = args[i].as_str();
            let p = self.resolve_path(arg);
            match fs.read(p.as_str()) {
                Some(content) => {
                    items.push(CatItem::Content(content));
                },
                None => {
                    if fs.exists_path(p.as_str()) {
                        items.push(CatItem::Error(cat3("cat: ", arg, ": Is a directory")));
                    } else {
                        items.push(
                            CatItem::Error(cat3("cat: ", arg, ": No such file or directory")),
                        );
                    }
                },
            }
            proof {
                assert(cat_item_views(items@) =~= it0.push(
                    cat_one(fs@, args@[i as int]@, self.abs_cwd@, self.home_dir@),
                ));
                assert(cat_item_views(items@) =~= Seq::new(
                    (i + 1) as nat,
                    |j: int| cat_one(fs@, args@[j]@, self.abs_cwd@, self.home_dir@),
                ));
            }
            i = i + 1;
        }
        proof {
            assert(Seq::new(n as nat, |j: int| cat_one(fs@, args@[j]@, self.abs_cwd@, self.home_dir@))
                =~= Seq::new(args@.len(), |j: int| cat_one(fs@, args@[j]@, self.abs_cwd@, self.home_dir@)));
        }
        items
    }
}

} // verus!
